//! Declarative data-flow graphs: named stages, connection chains, and the
//! resolver that turns them into concrete queue wiring.
//!
//! A graph is declared as data: stages are registered by name with a role
//! and the shape of the function that will run them, and connections are
//! registered as ordered chains of stage names (`a -> b -> c`).  Resolution
//! expands every chain into pairwise edges, checks the structural rules
//! (roles, single output, connectedness, acyclicity), and produces a plan
//! that assigns every consuming stage one bounded input queue and every
//! producing stage the write end of its downstream stage's queue.

use vstd::prelude::*;

verus! {

/// The three roles a stage can play in a data-flow graph.
#[derive(Clone, Copy, PartialEq, Eq, Structural, Debug)]
pub enum Role {
    Extract,
    Transform,
    Load,
}

/// The shape of a stage function: which queue endpoints it takes besides
/// the cancellation handle.
#[derive(Clone, Copy, PartialEq, Eq, Structural, Debug)]
pub enum FnShape {
    /// Takes only an output write end: produces batches on its own schedule.
    Source,
    /// Takes an input read end and an output write end.
    Through,
    /// Takes only an input read end: consumes batches, produces nothing.
    Sink,
}

/// The function shape that a role requires.
pub open spec fn shape_of_role(r: Role) -> FnShape {
    match r {
        Role::Extract => FnShape::Source,
        Role::Transform => FnShape::Through,
        Role::Load => FnShape::Sink,
    }
}

/// Executable twin of [`shape_of_role`].
#[verifier::when_used_as_spec(shape_of_role)]
pub fn required_shape(r: Role) -> (s: FnShape)
    ensures
        s == shape_of_role(r),
{
    match r {
        Role::Extract => FnShape::Source,
        Role::Transform => FnShape::Through,
        Role::Load => FnShape::Sink,
    }
}

/// One registered stage: its unique name, its declared role, and the shape
/// of the function bound to it.
pub struct StageDecl {
    pub name: String,
    pub role: Role,
    pub shape: FnShape,
}

/// A configuration error: every one of these is reported at declaration or
/// resolution time, before any stage starts.
#[derive(Debug, PartialEq, Eq)]
pub enum ConfigError {
    /// A stage was registered under a name that is already taken.
    DuplicateStage(String),
    /// A stage function's shape does not match its declared role.
    ShapeMismatch(String),
    /// A connection chain names fewer than two stages.
    ChainTooShort,
    /// A connection names a stage that was never declared.
    UndeclaredStage(String),
    /// An edge points into an Extract stage, which takes no input.
    ExtractConsumes(String),
    /// An edge leaves a Load stage, which is terminal and produces nothing.
    TerminalProduces(String),
    /// A stage has edges to two different downstream stages (broadcast is
    /// not supported).
    MultipleOutputs(String),
    /// A stage that needs an input or an output edge has none.
    UnconnectedStage(String),
    /// Following the stages' output edges returns to a stage already seen.
    CycleDetected,
}

/// The sequence of stage names declared so far, as mathematical strings.
pub open spec fn names_of(stages: Seq<StageDecl>) -> Seq<Seq<char>> {
    Seq::new(stages.len(), |i: int| stages[i].name@)
}

/// No two declared stages share a name.
pub open spec fn unique_names(stages: Seq<StageDecl>) -> bool {
    forall|i: int, j: int|
        0 <= i < j < stages.len() ==> stages[i].name@ != stages[j].name@
}

/// Every declared stage's function shape matches its role.
pub open spec fn shapes_match(stages: Seq<StageDecl>) -> bool {
    forall|i: int| 0 <= i < stages.len() ==> stages[i].shape == shape_of_role(stages[i].role)
}

/// The name is one of the declared stages' names.
pub open spec fn is_declared(stages: Seq<StageDecl>, name: Seq<char>) -> bool {
    exists|i: int| 0 <= i < stages.len() && stages[i].name@ == name
}

/// One chain of connection names, as mathematical strings.
pub open spec fn chain_view(c: Seq<String>) -> Seq<Seq<char>> {
    Seq::new(c.len(), |k: int| c[k]@)
}

/// Every name of the chain is declared, and the chain has at least two.
pub open spec fn chain_ok(stages: Seq<StageDecl>, chain: Seq<Seq<char>>) -> bool {
    &&& chain.len() >= 2
    &&& forall|k: int| 0 <= k < chain.len() ==> is_declared(stages, chain[k])
}

/// A declarative graph under construction: the stage registry plus the raw
/// connection chains.  `wf()` is established by [`GraphBuilder::new`] and
/// preserved by every method.
pub struct GraphBuilder {
    pub stages: Vec<StageDecl>,
    pub chains: Vec<Vec<String>>,
}

impl GraphBuilder {
    /// The names of the declared stages.
    pub open spec fn spec_names(&self) -> Seq<Seq<char>> {
        names_of(self.stages@)
    }

    /// The declared stages.
    pub open spec fn spec_stages(&self) -> Seq<StageDecl> {
        self.stages@
    }

    /// The declared chains, as sequences of mathematical strings.
    pub open spec fn spec_chains(&self) -> Seq<Seq<Seq<char>>> {
        Seq::new(self.chains@.len(), |c: int| chain_view(self.chains@[c]@))
    }

    /// Builder well-formedness: names unique, shapes match roles, every
    /// chain is long enough and speaks only of declared stages.
    pub open spec fn wf(&self) -> bool {
        &&& unique_names(self.stages@)
        &&& shapes_match(self.stages@)
        &&& forall|c: int|
            0 <= c < self.spec_chains().len() ==> chain_ok(self.stages@, self.spec_chains()[c])
    }

    /// An empty graph: no stages, no connections.
    pub fn new() -> (g: GraphBuilder)
        ensures
            g.wf(),
            g.spec_stages() =~= Seq::<StageDecl>::empty(),
            g.spec_chains() =~= Seq::<Seq<Seq<char>>>::empty(),
    {
        let g = GraphBuilder { stages: Vec::new(), chains: Vec::new() };
        proof {
            assert(g.spec_chains() =~= Seq::<Seq<Seq<char>>>::empty());
        }
        g
    }

    /// The index of the declared stage with this name, if any.
    fn find_stage(&self, name: &String) -> (r: Option<usize>)
        ensures
            match r {
                Some(i) => i < self.spec_stages().len() && self.spec_names()[i as int] == name@,
                None => !is_declared(self.spec_stages(), name@),
            },
    {
        let n = self.stages.len();
        let mut i: usize = 0;
        while i < n
            invariant
                n == self.spec_stages().len(),
                i <= n,
                forall|j: int| 0 <= j < i ==> self.stages@[j].name@ != name@,
            decreases n - i,
        {
            if self.stages[i].name == *name {
                return Some(i);
            }
            i += 1;
        }
        None
    }

    /// Register a stage under a fresh name, with its role and the shape of
    /// the function that will run it.
    ///
    /// Fails with `DuplicateStage` exactly when the name is already taken,
    /// and otherwise with `ShapeMismatch` exactly when the function shape is
    /// not the one the role requires (the registration-time half of the
    /// signature validator).  On success the stage is appended; on failure
    /// the builder is unchanged.
    pub fn add_stage(&mut self, name: String, role: Role, shape: FnShape) -> (r: Result<
        (),
        ConfigError,
    >)
        requires
            old(self).wf(),
        ensures
            final(self).wf(),
            match r {
                Ok(()) => {
                    &&& !is_declared(old(self).spec_stages(), name@)
                    &&& shape == shape_of_role(role)
                    &&& final(self).spec_stages() =~= old(self).spec_stages().push(
                        StageDecl { name, role, shape },
                    )
                    &&& final(self).spec_chains() == old(self).spec_chains()
                },
                Err(ConfigError::DuplicateStage(n)) => {
                    &&& is_declared(old(self).spec_stages(), name@)
                    &&& n@ == name@
                    &&& *final(self) == *old(self)
                },
                Err(ConfigError::ShapeMismatch(n)) => {
                    &&& !is_declared(old(self).spec_stages(), name@)
                    &&& shape != shape_of_role(role)
                    &&& n@ == name@
                    &&& *final(self) == *old(self)
                },
                Err(_) => false,
            },
    {
        if self.find_stage(&name).is_some() {
            return Err(ConfigError::DuplicateStage(name));
        }
        if shape != required_shape(role) {
            return Err(ConfigError::ShapeMismatch(name));
        }
        let ghost old_stages = self.stages@;
        self.stages.push(StageDecl { name, role, shape });
        proof {
            assert forall|i: int, j: int|
                0 <= i < j < self.stages@.len() implies self.stages@[i].name@
                != self.stages@[j].name@ by {
                if j == old_stages.len() {
                    assert(!is_declared(old_stages, self.stages@[j].name@));
                }
            }
            assert(self.spec_chains() =~= old(self).spec_chains());
            assert forall|c: int|
                0 <= c < self.spec_chains().len() implies chain_ok(
                self.stages@,
                self.spec_chains()[c],
            ) by {
                assert(chain_ok(old_stages, self.spec_chains()[c]));
                assert forall|k: int|
                    0 <= k < self.spec_chains()[c].len() implies is_declared(
                    self.stages@,
                    self.spec_chains()[c][k],
                ) by {
                    let n = self.spec_chains()[c][k];
                    let i = choose|i: int|
                        0 <= i < old_stages.len() && old_stages[i].name@ == n;
                    assert(self.stages@[i].name@ == n);
                }
            }
        }
        Ok(())
    }

    /// Register one connection chain: an ordered list of at least two stage
    /// names, `names[0] -> names[1] -> ...`, each adjacent pair an edge.
    ///
    /// Fails with `ChainTooShort` exactly when fewer than two names are
    /// given, and otherwise with `UndeclaredStage` exactly when some name in
    /// the chain was never declared.  On success the chain is appended; on
    /// failure the builder is unchanged.
    pub fn add_chain(&mut self, names: Vec<String>) -> (r: Result<(), ConfigError>)
        requires
            old(self).wf(),
        ensures
            final(self).wf(),
            match r {
                Ok(()) => {
                    &&& chain_ok(old(self).spec_stages(), chain_view(names@))
                    &&& final(self).spec_chains() =~= old(self).spec_chains().push(
                        chain_view(names@),
                    )
                    &&& final(self).spec_stages() == old(self).spec_stages()
                },
                Err(ConfigError::ChainTooShort) => {
                    &&& names@.len() < 2
                    &&& *final(self) == *old(self)
                },
                Err(ConfigError::UndeclaredStage(n)) => {
                    &&& names@.len() >= 2
                    &&& !is_declared(old(self).spec_stages(), n@)
                    &&& exists|k: int| 0 <= k < names@.len() && names@[k]@ == n@
                    &&& *final(self) == *old(self)
                },
                Err(_) => false,
            },
    {
        if names.len() < 2 {
            return Err(ConfigError::ChainTooShort);
        }
        let mut k: usize = 0;
        while k < names.len()
            invariant
                old(self).wf(),
                self == old(self),
                names@.len() >= 2,
                forall|j: int| 0 <= j < k ==> is_declared(self.stages@, names@[j]@),
            decreases names.len() - k,
        {
            if self.find_stage(&names[k]).is_none() {
                let n = names[k].clone();
                proof {
                    assert(n@ == names@[k as int]@);
                }
                return Err(ConfigError::UndeclaredStage(n));
            }
            k += 1;
        }
        let ghost old_chains = self.spec_chains();
        self.chains.push(names);
        proof {
            assert(self.spec_chains() =~= old_chains.push(chain_view(self.chains@.last()@)));
        }
        Ok(())
    }
}

/// The pairwise edges of one chain: `chain[k] -> chain[k + 1]` for each
/// adjacent pair of names.
pub open spec fn chain_pairs(chain: Seq<Seq<char>>) -> Seq<(Seq<char>, Seq<char>)> {
    if chain.len() < 1 {
        Seq::empty()
    } else {
        Seq::new((chain.len() - 1) as nat, |k: int| (chain[k], chain[k + 1]))
    }
}

/// All edges of a chain list, in declaration order: every chain expanded to
/// its pairwise edges.
pub open spec fn edge_seq(chains: Seq<Seq<Seq<char>>>) -> Seq<(Seq<char>, Seq<char>)>
    decreases chains.len(),
{
    if chains.len() == 0 {
        Seq::empty()
    } else {
        edge_seq(chains.drop_last()) + chain_pairs(chains.last())
    }
}

/// Where the walk along output edges stands after `k` steps from stage `i`:
/// `Some` of the stage reached, or `None` once a stage without an output
/// edge (or out of bounds) has been passed.
pub open spec fn walk(succ: Seq<Option<usize>>, i: int, k: nat) -> Option<int>
    decreases k,
{
    if !(0 <= i < succ.len()) {
        None
    } else if k == 0 {
        Some(i)
    } else {
        match succ[i] {
            Some(j) => walk(succ, j as int, (k - 1) as nat),
            None => None,
        }
    }
}

/// The output edges form a cycle: from some stage, following outputs for as
/// many steps as there are stages never falls off the graph.  In a graph
/// where every stage has at most one output this holds exactly when some
/// stage (directly or transitively) feeds its own input.
pub open spec fn detects_cycle(succ: Seq<Option<usize>>) -> bool {
    exists|i: int| 0 <= i < succ.len() && walk(succ, i, succ.len()) is Some
}

/// Splitting a walk: `a + b` steps from `i` is `b` steps from wherever `a`
/// steps landed.
pub proof fn lemma_walk_add(succ: Seq<Option<usize>>, i: int, a: nat, b: nat)
    ensures
        walk(succ, i, a + b) == (match walk(succ, i, a) {
            Some(m) => walk(succ, m, b),
            None => None,
        }),
    decreases a,
{
    if 0 <= i < succ.len() {
        if a == 0 {
        } else {
            match succ[i] {
                Some(j) => {
                    lemma_walk_add(succ, j as int, (a - 1) as nat, b);
                    assert(walk(succ, i, a + b) == walk(succ, j as int, (a + b - 1) as nat));
                },
                None => {
                    assert(walk(succ, i, a) is None);
                    assert(walk(succ, i, a + b) is None);
                },
            }
        }
    }
}

/// A stage that returns to itself after `c` steps returns to itself after
/// any multiple of `c` steps.
proof fn lemma_cycle_pumps(succ: Seq<Option<usize>>, i: int, c: nat, m: nat)
    requires
        walk(succ, i, c) == Some(i),
    ensures
        walk(succ, i, m * c) == Some(i),
    decreases m,
{
    if m == 0 {
        assert(0 <= i < succ.len());
        assert(m * c == 0) by (nonlinear_arith)
            requires m == 0,
        ;
    } else {
        lemma_cycle_pumps(succ, i, c, (m - 1) as nat);
        lemma_walk_add(succ, i, (m - 1) as nat * c, c);
        assert(m * c == (m - 1) as nat * c + c) by (nonlinear_arith)
            requires m >= 1,
        ;
    }
}

/// In a graph where `detects_cycle` fails, no stage reaches itself again by
/// following output edges: nothing feeds its own input, directly or through
/// any number of intermediate stages.
pub proof fn lemma_no_cycle_no_self_feed(succ: Seq<Option<usize>>, i: int, c: nat)
    requires
        !detects_cycle(succ),
        0 <= i < succ.len(),
        c >= 1,
    ensures
        walk(succ, i, c) != Some(i),
{
    if walk(succ, i, c) == Some(i) {
        let n = succ.len();
        lemma_cycle_pumps(succ, i, c, n);
        assert(n * c >= n) by (nonlinear_arith)
            requires c >= 1, n >= 0,
        ;
        lemma_walk_add(succ, i, n, (n * c - n) as nat);
        assert(walk(succ, i, n) is Some);
    }
}

/// A walk that ends somewhere ends at a stage of the graph.
proof fn lemma_walk_in_bounds(succ: Seq<Option<usize>>, i: int, k: nat)
    requires
        walk(succ, i, k) is Some,
    ensures
        0 <= walk(succ, i, k)->0 < succ.len(),
    decreases k,
{
    if 0 <= i < succ.len() && k > 0 {
        match succ[i] {
            Some(j) => {
                lemma_walk_in_bounds(succ, j as int, (k - 1) as nat);
            },
            None => {},
        }
    }
}

/// A detected cycle is a genuine one: when following output edges for as
/// many steps as there are stages never falls off the graph, some stage
/// (directly or transitively) feeds its own input.
pub proof fn lemma_detected_cycle_is_real(succ: Seq<Option<usize>>)
    requires
        detects_cycle(succ),
    ensures
        exists|i: int, c: nat|
            0 <= i < succ.len() && 1 <= c && walk(succ, i, c) == Some(i),
{
    let n = succ.len() as int;
    let i0 = choose|i: int| 0 <= i < succ.len() && walk(succ, i, succ.len()) is Some;
    assert forall|k: int| 0 <= k <= n implies #[trigger] walk(succ, i0, k as nat) is Some && 0
        <= walk(succ, i0, k as nat)->0 < n by {
        lemma_walk_add(succ, i0, k as nat, (n - k) as nat);
        assert(walk(succ, i0, k as nat) is Some);
        lemma_walk_in_bounds(succ, i0, k as nat);
    }
    let vseq = Seq::new((n + 1) as nat, |k: int| walk(succ, i0, k as nat)->0);
    if vseq.no_duplicates() {
        vseq.unique_seq_to_set();
        assert forall|x: int| vseq.to_set().contains(x) implies vstd::set_lib::set_int_range(
            0,
            n,
        ).contains(x) by {
            let k = choose|k: int| 0 <= k < vseq.len() && vseq[k] == x;
            assert(0 <= walk(succ, i0, k as nat)->0 < n);
        }
        vstd::set_lib::lemma_int_range(0, n);
        vstd::set_lib::lemma_len_subset(vseq.to_set(), vstd::set_lib::set_int_range(0, n));
        assert(false);
    }
    let (j1, j2) = choose|j1: int, j2: int|
        0 <= j1 < vseq.len() && 0 <= j2 < vseq.len() && j1 != j2 && vseq[j1] == vseq[j2];
    let k1 = if j1 < j2 {
        j1
    } else {
        j2
    };
    let k2 = if j1 < j2 {
        j2
    } else {
        j1
    };
    assert(0 <= k1 < k2 < vseq.len() && vseq[k1] == vseq[k2]);
    let m = walk(succ, i0, k1 as nat)->0;
    lemma_walk_add(succ, i0, k1 as nat, (k2 - k1) as nat);
    assert(walk(succ, m, (k2 - k1) as nat) == walk(succ, i0, k2 as nat));
    assert(walk(succ, m, (k2 - k1) as nat) == Some(m));
}

/// Whether the output edges of `succ` contain a cycle.
fn detect_cycle(succ: &Vec<Option<usize>>) -> (r: bool)
    requires
        forall|i: int|
            0 <= i < succ@.len() ==> (succ@[i] is Some ==> succ@[i]->0 < succ@.len()),
    ensures
        r == detects_cycle(succ@),
{
    let n = succ.len();
    let mut i: usize = 0;
    while i < n
        invariant
            n == succ@.len(),
            i <= n,
            forall|p: int| 0 <= p < i ==> walk(succ@, p, succ@.len()) is None,
            forall|q: int|
                0 <= q < succ@.len() ==> (succ@[q] is Some ==> succ@[q]->0 < succ@.len()),
        decreases n - i,
    {
        let mut cur: usize = i;
        let mut step: usize = 0;
        let mut alive = true;
        while alive && step < n
            invariant
                n == succ@.len(),
                i < n,
                step <= n,
                alive ==> cur < n && walk(succ@, i as int, step as nat) == Some(cur as int),
                !alive ==> walk(succ@, i as int, n as nat) is None,
                forall|q: int|
                    0 <= q < succ@.len() ==> (succ@[q] is Some ==> succ@[q]->0 < succ@.len()),
            decreases n - step,
        {
            match succ[cur] {
                Some(nx) => {
                    proof {
                        lemma_walk_add(succ@, i as int, step as nat, 1);
                        assert(walk(succ@, nx as int, 0) == Some(nx as int));
                        assert(walk(succ@, cur as int, 1) == Some(nx as int));
                    }
                    cur = nx;
                    step += 1;
                },
                None => {
                    proof {
                        lemma_walk_add(succ@, i as int, step as nat, (n - step) as nat);
                        assert(walk(succ@, cur as int, (n - step) as nat) is None);
                    }
                    alive = false;
                    step = n;
                },
            }
        }
        if alive {
            proof {
                assert(walk(succ@, i as int, succ@.len()) is Some);
            }
            return true;
        }
        i += 1;
    }
    false
}

/// A chain `a -> b -> c -> ...` contributes exactly the explicit pair list
/// `{(a, b), (b, c), ...}` to the edge set: edge expansion neither invents,
/// drops, nor reorders edges.
pub proof fn lemma_chain_edge_set(chain: Seq<Seq<char>>)
    requires
        chain.len() >= 2,
    ensures
        edge_seq(seq![chain]).len() == chain.len() - 1,
        forall|k: int|
            0 <= k < chain.len() - 1 ==> edge_seq(seq![chain])[k] == (chain[k], chain[k + 1]),
{
    assert(seq![chain].drop_last() =~= Seq::<Seq<Seq<char>>>::empty());
    assert(seq![chain].last() == chain);
    assert(edge_seq(Seq::<Seq<Seq<char>>>::empty()) =~= Seq::<(Seq<char>, Seq<char>)>::empty());
    assert(edge_seq(seq![chain]) == edge_seq(seq![chain].drop_last()) + chain_pairs(chain));
    assert(edge_seq(seq![chain]) =~= chain_pairs(chain));
}

/// Stepping the recursion of [`edge_seq`] one chain at a time.
pub proof fn lemma_edge_seq_take_step(chains: Seq<Seq<Seq<char>>>, c: int)
    requires
        0 <= c < chains.len(),
    ensures
        edge_seq(chains.take(c + 1)) == edge_seq(chains.take(c)) + chain_pairs(chains[c]),
{
    assert(chains.take(c + 1).drop_last() =~= chains.take(c));
    assert(chains.take(c + 1).last() == chains[c]);
}

/// The chain list has an edge from name `a` to name `b`.
pub open spec fn edge_in(chains: Seq<Seq<Seq<char>>>, a: Seq<char>, b: Seq<char>) -> bool {
    exists|e: int| 0 <= e < edge_seq(chains).len() && edge_seq(chains)[e] == (a, b)
}

/// The chain list has an edge leaving name `a`.
pub open spec fn edge_from(chains: Seq<Seq<Seq<char>>>, a: Seq<char>) -> bool {
    exists|e: int| 0 <= e < edge_seq(chains).len() && edge_seq(chains)[e].0 == a
}

/// The chain list has an edge pointing into name `b`.
pub open spec fn edge_into(chains: Seq<Seq<Seq<char>>>, b: Seq<char>) -> bool {
    exists|e: int| 0 <= e < edge_seq(chains).len() && edge_seq(chains)[e].1 == b
}

/// The index of the declared stage with this name (meaningful only for a
/// declared name under unique names).
pub open spec fn idx_of(stages: Seq<StageDecl>, name: Seq<char>) -> int {
    choose|i: int| 0 <= i < stages.len() && stages[i].name@ == name
}

/// The role of the declared stage with this name.
pub open spec fn role_at(stages: Seq<StageDecl>, name: Seq<char>) -> Role {
    stages[idx_of(stages, name)].role
}

/// Under unique names, a stage is the only holder of its name.
pub proof fn lemma_same_name(stages: Seq<StageDecl>, i: int, j: int)
    requires
        unique_names(stages),
        0 <= i < stages.len(),
        0 <= j < stages.len(),
        stages[i].name@ == stages[j].name@,
    ensures
        i == j,
{
}

/// Under unique names, `idx_of` inverts the name of a declared stage.
pub proof fn lemma_idx_of(stages: Seq<StageDecl>, i: int)
    requires
        unique_names(stages),
        0 <= i < stages.len(),
    ensures
        idx_of(stages, stages[i].name@) == i,
{
    let j = idx_of(stages, stages[i].name@);
    assert(0 <= j < stages.len() && stages[j].name@ == stages[i].name@);
    lemma_same_name(stages, i, j);
}

/// Some edge points into an Extract stage, which takes no input.
pub open spec fn cond_extract_consumes(stages: Seq<StageDecl>, chains: Seq<Seq<Seq<char>>>) -> bool {
    exists|e: int|
        0 <= e < edge_seq(chains).len() && role_at(stages, edge_seq(chains)[e].1) == Role::Extract
}

/// Some edge leaves a Load stage, which is terminal.
pub open spec fn cond_terminal_produces(stages: Seq<StageDecl>, chains: Seq<Seq<Seq<char>>>) -> bool {
    exists|e: int|
        0 <= e < edge_seq(chains).len() && role_at(stages, edge_seq(chains)[e].0) == Role::Load
}

/// Some stage has edges to two different downstream stages.
pub open spec fn cond_multiple_outputs(chains: Seq<Seq<Seq<char>>>) -> bool {
    exists|e1: int, e2: int|
        {
            &&& 0 <= e1 < edge_seq(chains).len()
            &&& 0 <= e2 < edge_seq(chains).len()
            &&& edge_seq(chains)[e1].0 == edge_seq(chains)[e2].0
            &&& edge_seq(chains)[e1].1 != edge_seq(chains)[e2].1
        }
}

/// Stage `i` lacks an edge its role requires: an output for Extract and
/// Transform, an input for Transform and Load.
pub open spec fn stage_unconnected(
    stages: Seq<StageDecl>,
    chains: Seq<Seq<Seq<char>>>,
    i: int,
) -> bool {
    ||| (stages[i].role != Role::Load && !edge_from(chains, stages[i].name@))
    ||| (stages[i].role != Role::Extract && !edge_into(chains, stages[i].name@))
}

/// Some stage lacks an edge its role requires.
pub open spec fn cond_unconnected(stages: Seq<StageDecl>, chains: Seq<Seq<Seq<char>>>) -> bool {
    exists|i: int| 0 <= i < stages.len() && stage_unconnected(stages, chains, i)
}

/// Stage `i` has an edge to some declared stage.
pub open spec fn has_target(stages: Seq<StageDecl>, chains: Seq<Seq<Seq<char>>>, i: int) -> bool {
    exists|j: int| 0 <= j < stages.len() && edge_in(chains, stages[i].name@, stages[j].name@)
}

/// The declared stage that stage `i` feeds (meaningful when `has_target`
/// holds and no stage has two distinct targets).
pub open spec fn target_of(stages: Seq<StageDecl>, chains: Seq<Seq<Seq<char>>>, i: int) -> int {
    choose|j: int| 0 <= j < stages.len() && edge_in(chains, stages[i].name@, stages[j].name@)
}

/// The successor map the chain list induces on stage indices.
pub open spec fn spec_succ(stages: Seq<StageDecl>, chains: Seq<Seq<Seq<char>>>) -> Seq<
    Option<usize>,
> {
    Seq::new(
        stages.len(),
        |i: int|
            if has_target(stages, chains, i) {
                Some(target_of(stages, chains, i) as usize)
            } else {
                None
            },
    )
}

/// Following the stages' output edges returns to a stage already seen.
pub open spec fn cond_cycle(stages: Seq<StageDecl>, chains: Seq<Seq<Seq<char>>>) -> bool {
    detects_cycle(spec_succ(stages, chains))
}

/// One stage of a resolved plan: its name and role carried over from the
/// declaration, the queue it reads (its own, present exactly when some edge
/// feeds it) and the queue it writes (owned by the downstream stage).
#[derive(Debug)]
pub struct PlannedStage {
    pub name: String,
    pub role: Role,
    /// The input queue this stage owns and exclusively reads: queue `i` for
    /// stage `i`, present exactly when some edge points into the stage.
    pub input: Option<usize>,
    /// The index of the downstream stage whose input queue this stage
    /// writes; a clone of that queue's write end is this stage's output.
    pub output: Option<usize>,
}


/// A resolved execution plan: concrete queue wiring for every stage, plus
/// the bound every queue is created with.
#[derive(Debug)]
pub struct Plan {
    pub stages: Vec<PlannedStage>,
    pub capacity: usize,
}

/// The successor map of a plan: stage to downstream stage.
pub open spec fn successors(stages: Seq<PlannedStage>) -> Seq<Option<usize>> {
    Seq::new(stages.len(), |i: int| stages[i].output)
}

/// What it means for a plan to resolve a declared graph: names and roles
/// are carried over, a stage writes stage `j`'s queue exactly when the
/// chains have that edge, a stage owns an input queue exactly when some
/// edge feeds it, roles and endpoints agree, and the wiring is acyclic.
pub open spec fn plan_matches(
    stages: Seq<StageDecl>,
    chains: Seq<Seq<Seq<char>>>,
    plan: Plan,
    capacity: int,
) -> bool {
    &&& plan.capacity == capacity
    &&& plan.stages@.len() == stages.len()
    &&& (forall|i: int|
        0 <= i < stages.len() ==> plan.stages@[i].name@ == stages[i].name@
            && plan.stages@[i].role == stages[i].role)
    &&& (forall|i: int|
        0 <= i < stages.len() ==> (plan.stages@[i].output is Some ==> plan.stages@[i].output->0
            < stages.len()))
    &&& (forall|i: int, j: int|
        0 <= i < stages.len() && 0 <= j < stages.len() ==> (plan.stages@[i].output == Some(
            j as usize,
        ) <==> edge_in(chains, stages[i].name@, stages[j].name@)))
    &&& (forall|i: int|
        0 <= i < stages.len() ==> plan.stages@[i].input == (if edge_into(
            chains,
            stages[i].name@,
        ) {
            Some(i as usize)
        } else {
            None
        }))
    &&& (forall|i: int|
        0 <= i < stages.len() ==> ((stages[i].role == Role::Load <==> plan.stages@[i].output
            is None) && (stages[i].role == Role::Extract <==> plan.stages@[i].input is None)))
    &&& !detects_cycle(successors(plan.stages@))
}

/// Fan-in: when the chains connect two producing stages to one consuming
/// stage, the resolved plan hands both producers the write end of the one
/// queue the consumer owns and reads.
pub proof fn lemma_fan_in_shared_queue(
    stages: Seq<StageDecl>,
    chains: Seq<Seq<Seq<char>>>,
    plan: Plan,
    capacity: int,
    p1: int,
    p2: int,
    l: int,
)
    requires
        plan_matches(stages, chains, plan, capacity),
        0 <= p1 < stages.len(),
        0 <= p2 < stages.len(),
        0 <= l < stages.len(),
        edge_in(chains, stages[p1].name@, stages[l].name@),
        edge_in(chains, stages[p2].name@, stages[l].name@),
    ensures
        plan.stages@[p1].output == Some(l as usize),
        plan.stages@[p2].output == Some(l as usize),
        plan.stages@[l].input == Some(l as usize),
{
    let e = choose|e: int|
        0 <= e < edge_seq(chains).len() && edge_seq(chains)[e] == (stages[p1].name@, stages[l].name@);
    assert(edge_seq(chains)[e].1 == stages[l].name@);
    assert(edge_into(chains, stages[l].name@));
}

/// The index edge `ie` spells out the name edge `ne` over the declared
/// stages.
pub open spec fn edge_matches(
    stages: Seq<StageDecl>,
    ie: (usize, usize),
    ne: (Seq<char>, Seq<char>),
) -> bool {
    &&& (ie.0 as int) < stages.len()
    &&& (ie.1 as int) < stages.len()
    &&& stages[ie.0 as int].name@ == ne.0
    &&& stages[ie.1 as int].name@ == ne.1
}

/// The index edges `ie` spell out the name edges `ne` over the declared
/// stages, in the same order.
pub open spec fn edges_match(
    stages: Seq<StageDecl>,
    ie: Seq<(usize, usize)>,
    ne: Seq<(Seq<char>, Seq<char>)>,
) -> bool {
    &&& ie.len() == ne.len()
    &&& (forall|e: int| 0 <= e < ie.len() ==> #[trigger] edge_matches(stages, ie[e], ne[e]))
}

impl GraphBuilder {
    /// Expand every chain into pairwise index edges, in declaration order.
    fn build_edges(&self) -> (edges: Vec<(usize, usize)>)
        requires
            self.wf(),
        ensures
            edges_match(self.stages@, edges@, edge_seq(self.spec_chains())),
    {
        let mut edges: Vec<(usize, usize)> = Vec::new();
        let nchains = self.chains.len();
        let mut c: usize = 0;
        proof {
            assert(self.spec_chains().take(0) =~= Seq::<Seq<Seq<char>>>::empty());
            assert(edge_seq(self.spec_chains().take(0)) =~= Seq::<(Seq<char>, Seq<char>)>::empty());
        }
        while c < nchains
            invariant
                self.wf(),
                nchains == self.chains@.len(),
                c <= nchains,
                edges_match(self.stages@, edges@, edge_seq(self.spec_chains().take(c as int))),
            decreases nchains - c,
        {
            let ghost prev = edge_seq(self.spec_chains().take(c as int));
            let ghost cv = self.spec_chains()[c as int];
            let m = self.chains[c].len();
            proof {
                assert(chain_ok(self.stages@, cv));
                assert(chain_pairs(cv).take(0) =~= Seq::<(Seq<char>, Seq<char>)>::empty());
                assert(edges@ =~= edges@);
            }
            let mut k: usize = 0;
            while k + 1 < m
                invariant
                    self.wf(),
                    c < self.chains@.len(),
                    m == self.chains@[c as int]@.len(),
                    cv == self.spec_chains()[c as int],
                    prev == edge_seq(self.spec_chains().take(c as int)),
                    chain_ok(self.stages@, cv),
                    k + 1 <= m,
                    edges_match(self.stages@, edges@, prev + chain_pairs(cv).take(k as int)),
                decreases m - k,
            {
                let src = match self.find_stage(&self.chains[c][k]) {
                    Some(x) => x,
                    None => {
                        proof {
                            assert(is_declared(self.stages@, cv[k as int]));
                        }
                        vstd::pervasive::unreached()
                    },
                };
                let dst = match self.find_stage(&self.chains[c][k + 1]) {
                    Some(x) => x,
                    None => {
                        proof {
                            assert(is_declared(self.stages@, cv[k as int + 1]));
                        }
                        vstd::pervasive::unreached()
                    },
                };
                let ghost before = edges@;
                edges.push((src, dst));
                proof {
                    assert(self.stages@[src as int].name@ == cv[k as int]);
                    assert(self.stages@[dst as int].name@ == cv[k as int + 1]);
                    assert(chain_pairs(cv).take(k as int + 1) =~= chain_pairs(cv).take(
                        k as int,
                    ).push((cv[k as int], cv[k as int + 1])));
                    let ghost target = prev + chain_pairs(cv).take(k as int + 1);
                    assert(target =~= (prev + chain_pairs(cv).take(k as int)).push(
                        (cv[k as int], cv[k as int + 1]),
                    ));
                    assert(edges@ == before.push((src, dst)));
                    assert forall|e: int|
                        0 <= e < edges@.len() implies #[trigger] edge_matches(
                        self.stages@,
                        edges@[e],
                        target[e],
                    ) by {
                        if e < before.len() {
                            assert(edges@[e] == before[e]);
                            assert(target[e] == (prev + chain_pairs(cv).take(k as int))[e]);
                            assert(edge_matches(self.stages@, before[e], (prev + chain_pairs(
                                cv,
                            ).take(k as int))[e]));
                        } else {
                            assert(edges@[e] == (src, dst));
                            assert(target[e] == (cv[k as int], cv[k as int + 1]));
                        }
                    }
                    assert(edges_match(self.stages@, edges@, target));
                }
                k += 1;
            }
            proof {
                assert(chain_pairs(cv).take(k as int) =~= chain_pairs(cv));
                lemma_edge_seq_take_step(self.spec_chains(), c as int);
            }
            c += 1;
        }
        proof {
            assert(self.spec_chains().take(nchains as int) =~= self.spec_chains());
        }
        edges
    }

    /// Refuse edges whose endpoints contradict the stages' roles: an edge
    /// into an Extract stage, then an edge out of a Load stage.
    fn check_edge_roles(&self, edges: &Vec<(usize, usize)>) -> (r: Result<(), ConfigError>)
        requires
            self.wf(),
            edges_match(self.stages@, edges@, edge_seq(self.spec_chains())),
        ensures
            match r {
                Ok(()) => !cond_extract_consumes(self.stages@, self.spec_chains())
                    && !cond_terminal_produces(self.stages@, self.spec_chains()),
                Err(ConfigError::ExtractConsumes(n)) => {
                    &&& cond_extract_consumes(self.stages@, self.spec_chains())
                    &&& is_declared(self.stages@, n@)
                    &&& role_at(self.stages@, n@) == Role::Extract
                    &&& edge_into(self.spec_chains(), n@)
                },
                Err(ConfigError::TerminalProduces(n)) => {
                    &&& !cond_extract_consumes(self.stages@, self.spec_chains())
                    &&& cond_terminal_produces(self.stages@, self.spec_chains())
                    &&& is_declared(self.stages@, n@)
                    &&& role_at(self.stages@, n@) == Role::Load
                    &&& edge_from(self.spec_chains(), n@)
                },
                Err(_) => false,
            },
    {
        let ghost ne = edge_seq(self.spec_chains());
        let n_edges = edges.len();
        let mut e: usize = 0;
        while e < n_edges
            invariant
                self.wf(),
                n_edges == edges@.len(),
                e <= n_edges,
                edges_match(self.stages@, edges@, ne),
                ne == edge_seq(self.spec_chains()),
                forall|p: int| 0 <= p < e ==> role_at(self.stages@, ne[p].1) != Role::Extract,
            decreases n_edges - e,
        {
            let d = edges[e].1;
            proof {
                assert(edge_matches(self.stages@, edges@[e as int], ne[e as int]));
                lemma_idx_of(self.stages@, d as int);
            }
            if matches!(self.stages[d].role, Role::Extract) {
                return Err(ConfigError::ExtractConsumes(self.stages[d].name.clone()));
            }
            e += 1;
        }
        let mut e: usize = 0;
        while e < n_edges
            invariant
                self.wf(),
                n_edges == edges@.len(),
                e <= n_edges,
                edges_match(self.stages@, edges@, ne),
                ne == edge_seq(self.spec_chains()),
                !cond_extract_consumes(self.stages@, self.spec_chains()),
                forall|p: int| 0 <= p < e ==> role_at(self.stages@, ne[p].0) != Role::Load,
            decreases n_edges - e,
        {
            let s = edges[e].0;
            proof {
                assert(edge_matches(self.stages@, edges@[e as int], ne[e as int]));
                lemma_idx_of(self.stages@, s as int);
            }
            if matches!(self.stages[s].role, Role::Load) {
                return Err(ConfigError::TerminalProduces(self.stages[s].name.clone()));
            }
            e += 1;
        }
        Ok(())
    }

    /// Assign every stage its single output target and mark which stages
    /// are fed, refusing a stage with two distinct targets.
    fn assign_outputs(&self, edges: &Vec<(usize, usize)>) -> (r: Result<
        (Vec<Option<usize>>, Vec<bool>),
        ConfigError,
    >)
        requires
            self.wf(),
            edges_match(self.stages@, edges@, edge_seq(self.spec_chains())),
        ensures
            match r {
                Ok((out, has_in)) => {
                    &&& !cond_multiple_outputs(self.spec_chains())
                    &&& out@.len() == self.stages@.len()
                    &&& has_in@.len() == self.stages@.len()
                    &&& (forall|i: int|
                        0 <= i < out@.len() ==> (out@[i] is Some ==> out@[i]->0
                            < self.stages@.len()))
                    &&& (forall|i: int, j: int|
                        0 <= i < self.stages@.len() && 0 <= j < self.stages@.len() ==> (out@[i]
                            == Some(j as usize) <==> edge_in(
                            self.spec_chains(),
                            self.stages@[i].name@,
                            self.stages@[j].name@,
                        )))
                    &&& (forall|i: int|
                        0 <= i < self.stages@.len() ==> ((out@[i] is Some) <==> edge_from(
                            self.spec_chains(),
                            self.stages@[i].name@,
                        )))
                    &&& (forall|j: int|
                        0 <= j < self.stages@.len() ==> (has_in@[j] <==> edge_into(
                            self.spec_chains(),
                            self.stages@[j].name@,
                        )))
                },
                Err(ConfigError::MultipleOutputs(n)) => {
                    &&& cond_multiple_outputs(self.spec_chains())
                    &&& is_declared(self.stages@, n@)
                    &&& edge_from(self.spec_chains(), n@)
                },
                Err(_) => false,
            },
    {
        let ghost ne = edge_seq(self.spec_chains());
        let n = self.stages.len();
        let mut out: Vec<Option<usize>> = Vec::new();
        let mut has_in: Vec<bool> = Vec::new();
        let mut i: usize = 0;
        while i < n
            invariant
                i <= n,
                out@.len() == i,
                has_in@.len() == i,
                forall|p: int| 0 <= p < i ==> out@[p] is None,
                forall|p: int| 0 <= p < i ==> !has_in@[p],
            decreases n - i,
        {
            out.push(None);
            has_in.push(false);
            i += 1;
        }
        let n_edges = edges.len();
        let mut e: usize = 0;
        while e < n_edges
            invariant
                self.wf(),
                n == self.stages@.len(),
                n_edges == edges@.len(),
                e <= n_edges,
                edges_match(self.stages@, edges@, ne),
                ne == edge_seq(self.spec_chains()),
                out@.len() == n,
                has_in@.len() == n,
                forall|p: int|
                    0 <= p < n ==> (out@[p] is Some ==> out@[p]->0 < n && exists|q: int|
                        0 <= q < e && (edges@[q].0 as int) == p && edges@[q].1 == out@[p]->0),
                forall|q: int| 0 <= q < e ==> out@[edges@[q].0 as int] == Some(edges@[q].1),
                forall|p: int|
                    0 <= p < n ==> (has_in@[p] <==> exists|q: int|
                        0 <= q < e && (edges@[q].1 as int) == p),
            decreases n_edges - e,
        {
            let (s, d) = edges[e];
            proof {
                assert(edge_matches(self.stages@, edges@[e as int], ne[e as int]));
            }
            let ghost out0 = out@;
            let ghost has0 = has_in@;
            match out[s] {
                None => {
                    out.set(s, Some(d));
                },
                Some(d0) => {
                    if d0 != d {
                        proof {
                            assert(out@[s as int] is Some);
                            let q0 = choose|q: int|
                                0 <= q < e && (edges@[q].0 as int) == s as int && edges@[q].1
                                    == d0;
                            assert(edge_matches(self.stages@, edges@[q0], ne[q0]));
                            assert(ne[q0].0 == self.stages@[s as int].name@);
                            assert(ne[e as int].0 == self.stages@[s as int].name@);
                            assert(ne[q0].1 == self.stages@[d0 as int].name@);
                            assert(ne[e as int].1 == self.stages@[d as int].name@);
                            assert(self.stages@[d0 as int].name@ != self.stages@[d as int].name@);
                            assert(cond_multiple_outputs(self.spec_chains()));
                        }
                        return Err(ConfigError::MultipleOutputs(self.stages[s].name.clone()));
                    }
                },
            }
            if !has_in[d] {
                has_in.set(d, true);
            }
            proof {
                assert forall|q: int|
                    0 <= q < e as int + 1 implies out@[edges@[q].0 as int] == Some(
                    edges@[q].1,
                ) by {
                    assert(edge_matches(self.stages@, edges@[q], ne[q]));
                    if q < e as int {
                        assert(out0[edges@[q].0 as int] == Some(edges@[q].1));
                    }
                }
                assert forall|p: int|
                    0 <= p < n && out@[p] is Some implies out@[p]->0 < n && exists|q: int|
                    0 <= q < e as int + 1 && (edges@[q].0 as int) == p && edges@[q].1
                        == out@[p]->0 by {
                    if out0[p] is Some {
                        assert(out@[p] == out0[p]);
                        let q = choose|q: int|
                            0 <= q < e as int && (edges@[q].0 as int) == p && edges@[q].1
                                == out0[p]->0;
                        assert(0 <= q < e as int + 1 && (edges@[q].0 as int) == p && edges@[q].1
                            == out@[p]->0);
                    } else {
                        assert(p == s as int);
                        assert((edges@[e as int].0 as int) == p && edges@[e as int].1
                            == out@[p]->0);
                    }
                }
                assert forall|p: int|
                    0 <= p < n implies (has_in@[p] <==> exists|q: int|
                    0 <= q < e as int + 1 && (edges@[q].1 as int) == p) by {
                    if p == d as int {
                        assert(has_in@[p]);
                        assert((edges@[e as int].1 as int) == p);
                    } else {
                        assert(has_in@[p] == has0[p]);
                        if has0[p] {
                            let q = choose|q: int|
                                0 <= q < e as int && (edges@[q].1 as int) == p;
                            assert(0 <= q < e as int + 1 && (edges@[q].1 as int) == p);
                        }
                        if exists|q: int| 0 <= q < e as int + 1 && (edges@[q].1 as int) == p {
                            let q = choose|q: int|
                                0 <= q < e as int + 1 && (edges@[q].1 as int) == p;
                            assert(q < e as int);
                            assert(has0[p]);
                        }
                    }
                }
            }
            e += 1;
        }
        proof {
            let stages = self.stages@;
            let chains = self.spec_chains();
            assert forall|i: int, j: int|
                0 <= i < stages.len() && 0 <= j < stages.len() implies (out@[i] == Some(j as usize)
                <==> edge_in(chains, stages[i].name@, stages[j].name@)) by {
                if out@[i] == Some(j as usize) {
                    let q = choose|q: int|
                        0 <= q < n_edges && (edges@[q].0 as int) == i && edges@[q].1 == out@[i]->0;
                    assert(edge_matches(stages, edges@[q], ne[q]));
                    assert(ne[q] == (stages[i].name@, stages[j].name@));
                    assert(edge_in(chains, stages[i].name@, stages[j].name@));
                }
                if edge_in(chains, stages[i].name@, stages[j].name@) {
                    let q = choose|q: int|
                        0 <= q < ne.len() && ne[q] == (stages[i].name@, stages[j].name@);
                    assert(edge_matches(stages, edges@[q], ne[q]));
                    lemma_same_name(stages, edges@[q].0 as int, i);
                    lemma_same_name(stages, edges@[q].1 as int, j);
                    assert(out@[i] == Some(j as usize));
                }
            }
            assert forall|i: int|
                0 <= i < stages.len() implies ((out@[i] is Some) <==> edge_from(
                chains,
                stages[i].name@,
            )) by {
                if out@[i] is Some {
                    let q = choose|q: int|
                        0 <= q < n_edges && (edges@[q].0 as int) == i && edges@[q].1 == out@[i]->0;
                    assert(edge_matches(stages, edges@[q], ne[q]));
                    assert(ne[q].0 == stages[i].name@);
                    assert(edge_from(chains, stages[i].name@));
                }
                if edge_from(chains, stages[i].name@) {
                    let q = choose|q: int| 0 <= q < ne.len() && ne[q].0 == stages[i].name@;
                    assert(edge_matches(stages, edges@[q], ne[q]));
                    lemma_same_name(stages, edges@[q].0 as int, i);
                    assert(out@[i] == Some(edges@[q].1));
                }
            }
            assert forall|j: int|
                0 <= j < stages.len() implies (has_in@[j] <==> edge_into(
                chains,
                stages[j].name@,
            )) by {
                if has_in@[j] {
                    let q = choose|q: int| 0 <= q < n_edges && (edges@[q].1 as int) == j;
                    assert(edge_matches(stages, edges@[q], ne[q]));
                    assert(ne[q].1 == stages[j].name@);
                    assert(edge_into(chains, stages[j].name@));
                }
                if edge_into(chains, stages[j].name@) {
                    let q = choose|q: int| 0 <= q < ne.len() && ne[q].1 == stages[j].name@;
                    assert(edge_matches(stages, edges@[q], ne[q]));
                    lemma_same_name(stages, edges@[q].1 as int, j);
                    assert(has_in@[j]);
                }
            }
            assert forall|e1: int, e2: int|
                0 <= e1 < ne.len() && 0 <= e2 < ne.len() && ne[e1].0 == ne[e2].0 implies ne[e1].1
                == ne[e2].1 by {
                assert(edge_matches(stages, edges@[e1], ne[e1]));
                assert(edge_matches(stages, edges@[e2], ne[e2]));
                lemma_same_name(stages, edges@[e1].0 as int, edges@[e2].0 as int);
                assert(out@[edges@[e1].0 as int] == Some(edges@[e1].1));
                assert(out@[edges@[e2].0 as int] == Some(edges@[e2].1));
            }
        }
        Ok((out, has_in))
    }

    /// Refuse a stage that lacks an edge its role requires: an output for
    /// Extract and Transform, an input for Transform and Load.
    fn check_connected(&self, out: &Vec<Option<usize>>, has_in: &Vec<bool>) -> (r: Result<
        (),
        ConfigError,
    >)
        requires
            self.wf(),
            out@.len() == self.stages@.len(),
            has_in@.len() == self.stages@.len(),
            forall|i: int|
                0 <= i < self.stages@.len() ==> ((out@[i] is Some) <==> edge_from(
                    self.spec_chains(),
                    self.stages@[i].name@,
                )),
            forall|j: int|
                0 <= j < self.stages@.len() ==> (has_in@[j] <==> edge_into(
                    self.spec_chains(),
                    self.stages@[j].name@,
                )),
        ensures
            match r {
                Ok(()) => !cond_unconnected(self.stages@, self.spec_chains()),
                Err(ConfigError::UnconnectedStage(n)) => {
                    &&& cond_unconnected(self.stages@, self.spec_chains())
                    &&& exists|i: int|
                        0 <= i < self.stages@.len() && self.stages@[i].name@ == n@
                            && stage_unconnected(self.stages@, self.spec_chains(), i)
                },
                Err(_) => false,
            },
    {
        let n = self.stages.len();
        let mut i: usize = 0;
        while i < n
            invariant
                self.wf(),
                n == self.stages@.len(),
                i <= n,
                out@.len() == n,
                has_in@.len() == n,
                forall|p: int|
                    0 <= p < n ==> ((out@[p] is Some) <==> edge_from(
                        self.spec_chains(),
                        self.stages@[p].name@,
                    )),
                forall|q: int|
                    0 <= q < n ==> (has_in@[q] <==> edge_into(
                        self.spec_chains(),
                        self.stages@[q].name@,
                    )),
                forall|p: int|
                    0 <= p < i ==> !stage_unconnected(self.stages@, self.spec_chains(), p),
            decreases n - i,
        {
            let needs_out = !matches!(self.stages[i].role, Role::Load);
            if needs_out && out[i].is_none() {
                let nm = self.stages[i].name.clone();
                proof {
                    assert(stage_unconnected(self.stages@, self.spec_chains(), i as int));
                    assert(cond_unconnected(self.stages@, self.spec_chains()));
                    assert(self.stages@[i as int].name@ == nm@);
                }
                return Err(ConfigError::UnconnectedStage(nm));
            }
            let needs_in = !matches!(self.stages[i].role, Role::Extract);
            if needs_in && !has_in[i] {
                let nm = self.stages[i].name.clone();
                proof {
                    assert(stage_unconnected(self.stages@, self.spec_chains(), i as int));
                    assert(cond_unconnected(self.stages@, self.spec_chains()));
                    assert(self.stages@[i as int].name@ == nm@);
                }
                return Err(ConfigError::UnconnectedStage(nm));
            }
            i += 1;
        }
        Ok(())
    }

    /// Resolve the declared graph into an execution plan whose queues are
    /// created with `capacity` slots each.
    ///
    /// On success the plan carries every stage's name and role, gives a
    /// stage the write end of stage `j`'s queue exactly when the chains
    /// have that edge, gives a stage an input queue exactly when some edge
    /// feeds it, and is acyclic.  Each configuration error is returned
    /// exactly when its condition holds and no condition checked before it
    /// does: an edge into an Extract stage, then an edge out of a Load
    /// stage, then a stage with two distinct output targets, then a stage
    /// lacking a required edge, then a cycle.
    pub fn resolve(&self, capacity: usize) -> (r: Result<Plan, ConfigError>)
        requires
            self.wf(),
            capacity >= 1,
        ensures
            match r {
                Ok(plan) => {
                    &&& !cond_extract_consumes(self.spec_stages(), self.spec_chains())
                    &&& !cond_terminal_produces(self.spec_stages(), self.spec_chains())
                    &&& !cond_multiple_outputs(self.spec_chains())
                    &&& !cond_unconnected(self.spec_stages(), self.spec_chains())
                    &&& !cond_cycle(self.spec_stages(), self.spec_chains())
                    &&& plan_matches(self.spec_stages(), self.spec_chains(), plan, capacity as int)
                },
                Err(ConfigError::ExtractConsumes(n)) => {
                    &&& cond_extract_consumes(self.spec_stages(), self.spec_chains())
                    &&& is_declared(self.spec_stages(), n@)
                    &&& role_at(self.spec_stages(), n@) == Role::Extract
                    &&& edge_into(self.spec_chains(), n@)
                },
                Err(ConfigError::TerminalProduces(n)) => {
                    &&& !cond_extract_consumes(self.spec_stages(), self.spec_chains())
                    &&& cond_terminal_produces(self.spec_stages(), self.spec_chains())
                    &&& is_declared(self.spec_stages(), n@)
                    &&& role_at(self.spec_stages(), n@) == Role::Load
                    &&& edge_from(self.spec_chains(), n@)
                },
                Err(ConfigError::MultipleOutputs(n)) => {
                    &&& !cond_extract_consumes(self.spec_stages(), self.spec_chains())
                    &&& !cond_terminal_produces(self.spec_stages(), self.spec_chains())
                    &&& cond_multiple_outputs(self.spec_chains())
                    &&& is_declared(self.spec_stages(), n@)
                    &&& edge_from(self.spec_chains(), n@)
                },
                Err(ConfigError::UnconnectedStage(n)) => {
                    &&& !cond_extract_consumes(self.spec_stages(), self.spec_chains())
                    &&& !cond_terminal_produces(self.spec_stages(), self.spec_chains())
                    &&& !cond_multiple_outputs(self.spec_chains())
                    &&& cond_unconnected(self.spec_stages(), self.spec_chains())
                    &&& exists|i: int|
                        0 <= i < self.spec_stages().len() && self.spec_stages()[i].name@ == n@
                            && stage_unconnected(self.spec_stages(), self.spec_chains(), i)
                },
                Err(ConfigError::CycleDetected) => {
                    &&& !cond_extract_consumes(self.spec_stages(), self.spec_chains())
                    &&& !cond_terminal_produces(self.spec_stages(), self.spec_chains())
                    &&& !cond_multiple_outputs(self.spec_chains())
                    &&& !cond_unconnected(self.spec_stages(), self.spec_chains())
                    &&& cond_cycle(self.spec_stages(), self.spec_chains())
                },
                Err(_) => false,
            },
    {
        let ghost stages = self.stages@;
        let ghost chains = self.spec_chains();
        let edges = self.build_edges();
        match self.check_edge_roles(&edges) {
            Ok(()) => (),
            Err(err) => {
                return Err(err);
            },
        }
        let (out, has_in) = match self.assign_outputs(&edges) {
            Ok(pair) => pair,
            Err(err) => {
                return Err(err);
            },
        };
        match self.check_connected(&out, &has_in) {
            Ok(()) => (),
            Err(err) => {
                return Err(err);
            },
        }
        proof {
            assert forall|i: int|
                0 <= i < stages.len() implies out@[i] == spec_succ(stages, chains)[i] by {
                if out@[i] is Some {
                    let j_us = out@[i]->0;
                    assert(out@[i] == Some((j_us as int) as usize));
                    assert(edge_in(chains, stages[i].name@, stages[j_us as int].name@));
                    assert(has_target(stages, chains, i));
                    let jt = target_of(stages, chains, i);
                    assert(0 <= jt < stages.len() && edge_in(
                        chains,
                        stages[i].name@,
                        stages[jt].name@,
                    ));
                    assert(out@[i] == Some(jt as usize));
                } else {
                    if has_target(stages, chains, i) {
                        let jt = target_of(stages, chains, i);
                        assert(edge_in(chains, stages[i].name@, stages[jt].name@));
                        let e = choose|e: int|
                            0 <= e < edge_seq(chains).len() && edge_seq(chains)[e] == (
                            stages[i].name@,
                            stages[jt].name@,
                            );
                        assert(edge_seq(chains)[e].0 == stages[i].name@);
                        assert(edge_from(chains, stages[i].name@));
                    }
                }
            }
            assert(out@ =~= spec_succ(stages, chains));
        }
        if detect_cycle(&out) {
            return Err(ConfigError::CycleDetected);
        }
        let n = self.stages.len();
        let mut planned: Vec<PlannedStage> = Vec::new();
        let mut i: usize = 0;
        while i < n
            invariant
                self.wf(),
                stages == self.stages@,
                chains == self.spec_chains(),
                n == stages.len(),
                i <= n,
                out@.len() == n,
                has_in@.len() == n,
                planned@.len() == i,
                forall|p: int|
                    #![trigger planned@[p]]
                    0 <= p < i ==> {
                        &&& planned@[p].name@ == stages[p].name@
                        &&& planned@[p].role == stages[p].role
                        &&& planned@[p].output == out@[p]
                        &&& planned@[p].input == (if has_in@[p] {
                            Some(p as usize)
                        } else {
                            None::<usize>
                        })
                    },
            decreases n - i,
        {
            let input = if has_in[i] {
                Some(i)
            } else {
                None
            };
            let ghost before = planned@;
            planned.push(
                PlannedStage {
                    name: self.stages[i].name.clone(),
                    role: self.stages[i].role,
                    input,
                    output: out[i],
                },
            );
            proof {
                assert(planned@.last().name@ == stages[i as int].name@);
                assert(planned@.last().role == stages[i as int].role);
                assert(planned@.last().output == out@[i as int]);
                assert(planned@.last().input == (if has_in@[i as int] {
                    Some(i)
                } else {
                    None::<usize>
                }));
                assert forall|p: int|
                    #![trigger planned@[p]]
                    0 <= p < i as int + 1 implies {
                    &&& planned@[p].name@ == stages[p].name@
                    &&& planned@[p].role == stages[p].role
                    &&& planned@[p].output == out@[p]
                    &&& planned@[p].input == (if has_in@[p] {
                        Some(p as usize)
                    } else {
                        None::<usize>
                    })
                } by {
                    if p < i as int {
                        assert(planned@[p] == before[p]);
                        assert(before[p].name@ == stages[p].name@);
                        assert(before[p].role == stages[p].role);
                    } else {
                        assert(p == i as int);
                        assert(planned@[p] == planned@.last());
                    }
                }
            }
            i += 1;
        }
        let plan = Plan { stages: planned, capacity };
        proof {
            assert(successors(plan.stages@) =~= out@);
            assert forall|p: int|
                0 <= p < stages.len() implies ((stages[p].role == Role::Load
                <==> plan.stages@[p].output is None) && (stages[p].role == Role::Extract
                <==> plan.stages@[p].input is None)) by {
                lemma_idx_of(stages, p);
                assert(!stage_unconnected(stages, chains, p));
                if stages[p].role == Role::Load && out@[p] is Some {
                    let e = choose|e: int|
                        0 <= e < edge_seq(chains).len() && edge_seq(chains)[e].0
                            == stages[p].name@;
                    assert(role_at(stages, edge_seq(chains)[e].0) == Role::Load);
                    assert(cond_terminal_produces(stages, chains));
                }
                if stages[p].role == Role::Extract && has_in@[p] {
                    let e = choose|e: int|
                        0 <= e < edge_seq(chains).len() && edge_seq(chains)[e].1
                            == stages[p].name@;
                    assert(role_at(stages, edge_seq(chains)[e].1) == Role::Extract);
                    assert(cond_extract_consumes(stages, chains));
                }
            }
            assert forall|i2: int, j2: int|
                0 <= i2 < stages.len() && 0 <= j2 < stages.len() implies (plan.stages@[i2].output
                == Some(j2 as usize) <==> edge_in(chains, stages[i2].name@, stages[j2].name@)) by {
                assert(plan.stages@[i2].output == out@[i2]);
            }
            assert(plan_matches(stages, chains, plan, capacity as int));
        }
        Ok(plan)
    }
}

} // verus!
