use vstd::prelude::*;
use crate::error::CellsError;
use crate::name::{CellName, valid_segment, valid_segments};
use crate::spec::{CellSpec, CgroupSpec};
use crate::teardown::{Release, Teardown};

verus! {

/// The handle of one cgroup v2 directory, named after its cell.
#[derive(Debug)]
pub struct Cgroup {
    cell_name: CellName,
    spec: CgroupSpec,
}

impl Cgroup {
    pub closed spec fn name_view(self) -> Seq<Seq<char>> {
        self.cell_name@
    }

    /// Builds the handle; nothing is created yet.
    pub fn new(cell_name: CellName, spec: CgroupSpec) -> (r: Self)
        ensures
            r.name_view() == cell_name@,
            r.spec_view() == spec,
    {
        Cgroup { cell_name, spec }
    }

    pub fn cell_name(&self) -> (r: &CellName)
        ensures
            r@ == self.name_view(),
    {
        &self.cell_name
    }

    pub closed spec fn spec_view(self) -> CgroupSpec {
        self.spec
    }

    pub fn spec(&self) -> (r: &CgroupSpec)
        ensures
            *r == self.spec_view(),
    {
        &self.spec
    }

    /// Only the unified hierarchy is supported.
    pub fn v2(&self) -> (r: bool)
        ensures
            r,
    {
        true
    }
}

/// What a client needs to reach a nested daemon: the socket it serves on and
/// the paths of the PKI material to authenticate with.
#[derive(Debug)]
pub struct ClientConfig {
    pub socket: String,
    pub ca_crt: String,
    pub client_crt: String,
    pub client_key: String,
}

impl Clone for ClientConfig {
    fn clone(&self) -> (r: Self)
        ensures
            r == *self,
    {
        ClientConfig {
            socket: self.socket.clone(),
            ca_crt: self.ca_crt.clone(),
            client_crt: self.client_crt.clone(),
            client_key: self.client_key.clone(),
        }
    }
}

/// What the parent keeps of a running nested daemon: its process id and the
/// client configuration generated for it.
#[derive(Debug)]
pub struct NestedAuraed {
    pub pid: i32,
    pub client_config: ClientConfig,
}

/// What came of launching the nested daemon of a cell and attaching it to
/// the cell's cgroup.
#[derive(Debug)]
pub enum Launch {
    /// The daemon could not be started.
    SpawnFailed { reason: String },
    /// The daemon started, but adding its pid to the cgroup failed.
    AttachFailed { daemon: NestedAuraed, reason: String },
    /// The daemon runs inside the cell's cgroup.
    Attached { daemon: NestedAuraed },
}

/// The three phases of a cell's life.
#[derive(Debug, Clone, Copy, PartialEq, Eq, Structural)]
pub enum Phase {
    Unallocated,
    Allocated,
    Freed,
}

#[derive(Debug)]
enum CellState {
    Unallocated,
    Allocated { cgroup: Cgroup, nested_auraed: NestedAuraed, children: Cells },
    Freed,
}

/// What a cell looks like from outside, without its children.
pub struct CellView {
    pub name: Seq<Seq<char>>,
    pub phase: Phase,
    /// The pid of the nested daemon while allocated, else zero.
    pub pid: i32,
    /// The nested daemon while allocated.
    pub daemon: Option<NestedAuraed>,
    /// The spec the cell was made with.
    pub spec: CellSpec,
}

/// A named, isolated execution environment: one cgroup, one nested daemon
/// and a cache of sub-cells while allocated. Its name and spec never change.
#[derive(Debug)]
pub struct Cell {
    cell_name: CellName,
    spec: CellSpec,
    state: CellState,
}

impl View for Cell {
    type V = CellView;

    closed spec fn view(&self) -> CellView {
        CellView {
            name: self.cell_name@,
            phase: match self.state {
                CellState::Unallocated => Phase::Unallocated,
                CellState::Allocated { .. } => Phase::Allocated,
                CellState::Freed => Phase::Freed,
            },
            pid: match self.state {
                CellState::Allocated { nested_auraed, .. } => nested_auraed.pid,
                _ => 0,
            },
            daemon: match self.state {
                CellState::Allocated { nested_auraed, .. } => Some(nested_auraed),
                _ => None,
            },
            spec: self.spec,
        }
    }
}

/// The cells of one level of the tree, keyed by the last segment of their
/// names.
#[derive(Debug)]
pub struct Cells {
    cells: Vec<Cell>,
}

/// The views of a sequence of cells.
pub open spec fn cell_views(s: Seq<Cell>) -> Seq<CellView> {
    s.map_values(|c: Cell| c@)
}

/// The position of the first entry whose name ends in `leaf`.
#[verifier::opaque]
pub open spec fn find_leaf(entries: Seq<CellView>, leaf: Seq<char>) -> Option<int> {
    if exists|i: int| 0 <= i < entries.len() && (#[trigger] entries[i]).name.last() == leaf {
        Some(
            choose|i: int|
                0 <= i < entries.len() && (#[trigger] entries[i]).name.last() == leaf && forall|
                    j: int,
                | 0 <= j < i ==> (#[trigger] entries[j]).name.last() != leaf,
        )
    } else {
        None
    }
}

/// What `find_leaf` gives: the first match, or no match at all.
pub proof fn lemma_find_leaf(entries: Seq<CellView>, leaf: Seq<char>)
    ensures
        match find_leaf(entries, leaf) {
            Some(i) => 0 <= i < entries.len() && entries[i].name.last() == leaf && forall|j: int|
                0 <= j < i ==> (#[trigger] entries[j]).name.last() != leaf,
            None => forall|i: int| 0 <= i < entries.len() ==> (#[trigger] entries[i]).name.last() != leaf,
        },
{
    reveal(find_leaf);
    if exists|i: int| 0 <= i < entries.len() && (#[trigger] entries[i]).name.last() == leaf {
        let w = choose|i: int| 0 <= i < entries.len() && (#[trigger] entries[i]).name.last() == leaf;
        lemma_first_match(entries, leaf, w);
    }
}

/// `find_leaf` is fixed by what it characterises.
pub proof fn lemma_find_leaf_is(entries: Seq<CellView>, leaf: Seq<char>, r: Option<int>)
    requires
        match r {
            Some(i) => 0 <= i < entries.len() && entries[i].name.last() == leaf && forall|j: int|
                0 <= j < i ==> (#[trigger] entries[j]).name.last() != leaf,
            None => forall|i: int| 0 <= i < entries.len() ==> (#[trigger] entries[i]).name.last() != leaf,
        },
    ensures
        find_leaf(entries, leaf) == r,
{
    lemma_find_leaf(entries, leaf);
    let f = find_leaf(entries, leaf);
    match r {
        Some(i) => {
            match f {
                Some(k) => {
                    if k < i {
                        assert(entries[k].name.last() != leaf);
                    }
                    if i < k {
                        assert(entries[i].name.last() != leaf);
                    }
                },
                None => {
                    assert(entries[i].name.last() != leaf);
                },
            }
        },
        None => {
            if f is Some {
                assert(entries[f->Some_0].name.last() != leaf);
            }
        },
    }
}

proof fn lemma_first_match(entries: Seq<CellView>, leaf: Seq<char>, w: int)
    requires
        0 <= w < entries.len(),
        entries[w].name.last() == leaf,
    ensures
        exists|i: int|
            0 <= i < entries.len() && (#[trigger] entries[i]).name.last() == leaf && forall|j: int|
                0 <= j < i ==> (#[trigger] entries[j]).name.last() != leaf,
    decreases w,
{
    if exists|j: int| 0 <= j < w && (#[trigger] entries[j]).name.last() == leaf {
        let j = choose|j: int| 0 <= j < w && (#[trigger] entries[j]).name.last() == leaf;
        lemma_first_match(entries, leaf, j);
    } else {
        assert(forall|j: int| 0 <= j < w ==> (#[trigger] entries[j]).name.last() != leaf);
    }
}

/// Entries of one level below `prefix`: each is named `prefix` plus one
/// segment, and no two share that last segment.
pub open spec fn level_ok(entries: Seq<CellView>, prefix: Seq<Seq<char>>) -> bool {
    &&& forall|i: int|
        0 <= i < entries.len() ==> (#[trigger] entries[i]).name.len() == prefix.len() + 1
            && entries[i].name.drop_last() == prefix
    &&& forall|i: int, j: int|
        0 <= i < entries.len() && 0 <= j < entries.len() && i != j ==> (#[trigger] entries[i]).name.last()
            != (#[trigger] entries[j]).name.last()
}

/// Where the allocation of a name stands, given the tree.
pub enum Route {
    /// The parent level exists and holds no entry of that leaf.
    Vacant,
    /// An entry of that name exists.
    Occupied,
    /// The ancestor with this many segments does not exist.
    NotFound(int),
    /// The ancestor with this many segments exists but is not allocated.
    NotAllocated(int),
}

impl Cells {
    pub closed spec fn entries(self) -> Seq<CellView> {
        cell_views(self.cells@)
    }

    /// The entries of the level reached by following `path` (relative to
    /// this level) through allocated cells, or `None` where the path leaves
    /// the tree or passes a cell that is not allocated.
    pub closed spec fn level(self, path: Seq<Seq<char>>) -> Option<Seq<CellView>>
        decreases path.len(),
    {
        if path.len() == 0 {
            Some(self.entries())
        } else {
            match find_leaf(self.entries(), path[0]) {
                None => None,
                Some(i) => match self.cells@[i].state {
                    CellState::Allocated { children, .. } => children.level(path.drop_first()),
                    _ => None,
                },
            }
        }
    }

    /// The cell at `path` (relative to this level), if there is one.
    pub open spec fn at(self, path: Seq<Seq<char>>) -> Option<CellView> {
        if path.len() == 0 {
            None
        } else {
            match self.level(path.drop_last()) {
                None => None,
                Some(l) => match find_leaf(l, path.last()) {
                    None => None,
                    Some(i) => Some(l[i]),
                },
            }
        }
    }

    /// Every level of the tree below this one, which holds the cells named
    /// `base` plus one segment, is well formed.
    pub open spec fn wf_at(self, base: Seq<Seq<char>>) -> bool {
        forall|q: Seq<Seq<char>>| #[trigger]
            self.level(q) is Some ==> level_ok(self.level(q)->Some_0, base + q)
    }

    /// The tree rooted at this level, which is the root of all names.
    pub open spec fn wf(self) -> bool {
        self.wf_at(Seq::empty())
    }

    /// How allocating the relative name `path` stands; `depth` is the number
    /// of segments above this level.
    pub closed spec fn route(self, path: Seq<Seq<char>>, depth: int) -> Route
        decreases path.len(),
    {
        if path.len() == 0 {
            Route::Vacant
        } else {
            match find_leaf(self.entries(), path[0]) {
                None => if path.len() == 1 {
                    Route::Vacant
                } else {
                    Route::NotFound(depth + 1)
                },
                Some(i) => if path.len() == 1 {
                    Route::Occupied
                } else {
                    match self.cells@[i].state {
                        CellState::Allocated { children, .. } => children.route(
                            path.drop_first(),
                            depth + 1,
                        ),
                        _ => Route::NotAllocated(depth + 1),
                    }
                },
            }
        }
    }
}

/// `p` is a prefix of `q`, segment by segment (or equal to it).
pub open spec fn is_prefix(p: Seq<Seq<char>>, q: Seq<Seq<char>>) -> bool {
    p.len() <= q.len() && q.subrange(0, p.len() as int) == p
}

impl Cell {
    /// The child cache of an allocated cell, followed along `path`.
    pub closed spec fn below(self, path: Seq<Seq<char>>) -> Option<Seq<CellView>> {
        match self.state {
            CellState::Allocated { children, .. } => children.level(path),
            _ => None,
        }
    }

    pub closed spec fn spec_view(self) -> CellSpec {
        self.spec
    }

    pub fn new(cell_name: CellName, cell_spec: CellSpec) -> (r: Self)
        ensures
            r@ == (CellView {
                name: cell_name@,
                phase: Phase::Unallocated,
                pid: 0,
                daemon: None,
                spec: cell_spec,
            }),
            r.spec_view() == cell_spec,
            r.wf(),
    {
        Cell { cell_name, spec: cell_spec, state: CellState::Unallocated }
    }

    pub fn name(&self) -> (r: &CellName)
        ensures
            r@ == self@.name,
    {
        &self.cell_name
    }

    pub fn spec(&self) -> (r: &CellSpec)
        ensures
            r == self.spec_view(),
    {
        &self.spec
    }

    pub fn phase(&self) -> (r: Phase)
        ensures
            r == self@.phase,
    {
        match &self.state {
            CellState::Unallocated => Phase::Unallocated,
            CellState::Allocated { .. } => Phase::Allocated,
            CellState::Freed => Phase::Freed,
        }
    }

    /// The pid of the nested daemon, while allocated.
    pub fn pid(&self) -> (r: Option<i32>)
        ensures
            r is Some <==> self@.phase == Phase::Allocated,
            r is Some ==> r->Some_0 == self@.pid,
    {
        match &self.state {
            CellState::Allocated { nested_auraed, .. } => Some(nested_auraed.pid),
            _ => None,
        }
    }

    /// Whether the cgroup is of the unified hierarchy; `None` unless
    /// allocated.
    pub fn v2(&self) -> (r: Option<bool>)
        ensures
            r is Some <==> self@.phase == Phase::Allocated,
            r is Some ==> r->Some_0,
    {
        match &self.state {
            CellState::Allocated { cgroup, .. } => Some(cgroup.v2()),
            _ => None,
        }
    }

    /// The client configuration of the nested daemon, with which a caller
    /// can reach it; fails unless allocated.
    pub fn client_config(&self) -> (r: Result<ClientConfig, CellsError>)
        ensures
            r is Ok <==> self@.phase == Phase::Allocated,
            r is Ok ==> self@.daemon is Some && r->Ok_0 == self@.daemon->Some_0.client_config,
            r is Err ==> r->Err_0.is(crate::error::ErrorKind::CellNotAllocated, self@.name),
    {
        match &self.state {
            CellState::Allocated { nested_auraed, .. } => Ok(nested_auraed.client_config.clone()),
            _ => Err(CellsError::CellNotAllocated { cell_name: self.cell_name.clone() }),
        }
    }

    /// Binds the launched daemon to the cell. Only an unallocated cell
    /// changes: it becomes allocated, with an empty child cache, when the
    /// daemon was attached to its cgroup; a failed launch leaves it
    /// unallocated. An allocated or freed cell is left as it is: a freed
    /// cell is never revived.
    pub fn allocate(&mut self, launch: Launch) -> (r: Result<(), CellsError>)
        ensures
            final(self)@.name == old(self)@.name,
            final(self).spec_view() == old(self).spec_view(),
            final(self)@.spec == old(self)@.spec,
            old(self)@.phase != Phase::Allocated ==> final(self).wf(),
            old(self)@.phase != Phase::Unallocated ==> r is Ok && *final(self) == *old(self),
            old(self)@.phase == Phase::Unallocated ==> match launch {
                Launch::SpawnFailed { reason } => r is Err && r->Err_0.is(
                    crate::error::ErrorKind::FailedToAllocateCell,
                    old(self)@.name,
                ) && r->Err_0.source_of() == reason@ && *final(self) == *old(self),
                Launch::AttachFailed { reason, .. } => r is Err && r->Err_0.is(
                    crate::error::ErrorKind::AbortedAllocateCell,
                    old(self)@.name,
                ) && r->Err_0.source_of() == reason@ && *final(self) == *old(self),
                Launch::Attached { daemon } => r is Ok && final(self)@.phase == Phase::Allocated
                    && final(self)@.pid == daemon.pid && final(self)@.daemon == Some(daemon)
                    && forall|q: Seq<Seq<char>>| #[trigger]
                    final(self).below(q) == if q.len() == 0 {
                        Some(Seq::<CellView>::empty())
                    } else {
                        None::<Seq<CellView>>
                    },
            },
    {
        match &self.state {
            CellState::Unallocated => {},
            _ => {
                return Ok(());
            },
        }
        match launch {
            Launch::SpawnFailed { reason } => Err(
                CellsError::FailedToAllocateCell { cell_name: self.cell_name.clone(), source: reason },
            ),
            Launch::AttachFailed { daemon: _, reason } => Err(
                CellsError::AbortedAllocateCell { cell_name: self.cell_name.clone(), source: reason },
            ),
            Launch::Attached { daemon } => {
                let cgroup = Cgroup::new(self.cell_name.clone(), self.spec.cgroup_spec.clone());
                let children = Cells::new();
                self.state = CellState::Allocated { cgroup, nested_auraed: daemon, children };
                Ok(())
            },
        }
    }
}

impl Cells {
    /// An empty cache.
    pub fn new() -> (r: Self)
        ensures
            r.wf(),
            r.entries().len() == 0,
            forall|q: Seq<Seq<char>>| #[trigger]
                r.level(q) == if q.len() == 0 {
                    Some(Seq::<CellView>::empty())
                } else {
                    None::<Seq<CellView>>
                },
    {
        let r = Cells { cells: Vec::new() };
        assert(r.entries() =~= Seq::<CellView>::empty());
        assert forall|q: Seq<Seq<char>>| #[trigger]
            r.level(q) == if q.len() == 0 {
                Some(Seq::<CellView>::empty())
            } else {
                None::<Seq<CellView>>
            } by {
            if q.len() > 0 {
                lemma_find_leaf_is(r.entries(), q[0], None);
            }
        };
        r
    }

    pub fn len(&self) -> (r: usize)
        ensures
            r == self.entries().len(),
    {
        self.cells.len()
    }

    /// The position of the first entry whose name ends in `leaf`.
    fn find(&self, leaf: &String) -> (r: Option<usize>)
        ensures
            r is None <==> find_leaf(self.entries(), leaf@) is None,
            r is Some ==> find_leaf(self.entries(), leaf@) == Some(r->Some_0 as int),
            r is Some ==> r->Some_0 < self.cells@.len(),
    {
        proof {
            lemma_find_leaf(self.entries(), leaf@);
        }
        let mut i: usize = 0;
        while i < self.cells.len()
            invariant
                i <= self.cells@.len(),
                forall|j: int| 0 <= j < i ==> (#[trigger] self.entries()[j]).name.last() != leaf@,
            decreases self.cells@.len() - i,
        {
            let l = self.cells[i].cell_name.leaf();
            assert(self.entries()[i as int] == self.cells@[i as int]@);
            if *l == *leaf {
                let ghost e = self.entries();
                assert(e[i as int].name.last() == leaf@);
                proof {
                    lemma_find_leaf_is(e, leaf@, Some(i as int));
                }
                return Some(i);
            }
            i = i + 1;
        }
        None
    }

    /// Checks where allocating `name` stands, from the level holding the
    /// names with `depth` segments above it.
    #[verifier::rlimit(40)]
    fn check_at(&self, name: &CellName, depth: usize) -> (r: Result<(), CellsError>)
        requires
            depth < name@.len(),
        ensures
            match self.route(name@.subrange(depth as int, name@.len() as int), depth as int) {
                Route::Vacant => r is Ok,
                Route::Occupied => r is Err && r->Err_0.is(
                    crate::error::ErrorKind::CellExists,
                    name@,
                ),
                Route::NotFound(k) => r is Err && r->Err_0.is(
                    crate::error::ErrorKind::CellNotFound,
                    name@.subrange(0, k),
                ),
                Route::NotAllocated(k) => r is Err && r->Err_0.is(
                    crate::error::ErrorKind::CellNotAllocated,
                    name@.subrange(0, k),
                ),
            },
        decreases name@.len() - depth,
    {
        let n = name.depth();
        let ghost path = name@.subrange(depth as int, name@.len() as int);
        let ghost rest = name@.subrange(depth + 1, name@.len() as int);
        assert(path[0] == name@[depth as int]);
        assert(path.drop_first() =~= rest);
        let found = self.find(name.segment(depth));
        match found {
            None => {
                if depth + 1 == n {
                    assert(self.route(path, depth as int) is Vacant);
                    Ok(())
                } else {
                    assert(self.route(path, depth as int) == Route::NotFound(depth + 1));
                    let cell_name = name.prefix(depth + 1);
                    let e = CellsError::CellNotFound { cell_name };
                    assert(e.is(crate::error::ErrorKind::CellNotFound, name@.subrange(0, depth + 1)));
                    Err(e)
                }
            },
            Some(i) => {
                if depth + 1 == n {
                    assert(self.route(path, depth as int) is Occupied);
                    let cell_name = name.clone();
                    assert(cell_name@ == name@);
                    let e = CellsError::CellExists { cell_name };
                    assert(e.name_of() == name@);
                    Err(e)
                } else {
                    assert(find_leaf(self.entries(), path[0]) == Some(i as int));
                    assert(path.len() > 1);
                    assert(self.route(path, depth as int) == match self.cells@[i as int].state {
                        CellState::Allocated { children, .. } => children.route(
                            path.drop_first(),
                            depth + 1,
                        ),
                        _ => Route::NotAllocated(depth + 1),
                    });
                    match &self.cells[i].state {
                        CellState::Allocated { children, .. } => {
                            assert(self.route(path, depth as int) == children.route(
                                rest,
                                depth + 1,
                            ));
                            children.check_at(name, depth + 1)
                        },
                        _ => {
                            assert(self.route(path, depth as int) == Route::NotAllocated(depth + 1));
                            let cell_name = name.prefix(depth + 1);
                            let e = CellsError::CellNotAllocated { cell_name };
                            assert(e.is(
                                crate::error::ErrorKind::CellNotAllocated,
                                name@.subrange(0, depth + 1),
                            ));
                            Err(e)
                        },
                    }
                }
            },
        }
    }
}

/// How the path `q` relates to `p` once both lose a shared first segment.
proof fn lemma_paths(p: Seq<Seq<char>>, q: Seq<Seq<char>>)
    requires
        p.len() >= 2,
        q.len() >= 1,
        q[0] == p[0],
    ensures
        (q == p.drop_last()) == (q.drop_first() == p.drop_first().drop_last()),
        is_prefix(p, q) == is_prefix(p.drop_first(), q.drop_first()),
        is_prefix(p, q) ==> q.subrange(p.len() as int, q.len() as int) == q.drop_first().subrange(
            p.drop_first().len() as int,
            q.drop_first().len() as int,
        ),
{
    if q.drop_first() == p.drop_first().drop_last() {
        assert forall|k: int| 0 <= k < q.len() implies q[k] == p.drop_last()[k] by {
            if k > 0 {
                assert(q[k] == q.drop_first()[k - 1]);
                assert(p.drop_first().drop_last()[k - 1] == p[k]);
            }
        };
        assert(q =~= p.drop_last());
    }
    if q == p.drop_last() {
        assert(q.drop_first() =~= p.drop_first().drop_last());
    }
    if is_prefix(p, q) {
        assert(q.drop_first().subrange(0, p.len() - 1) =~= p.drop_first());
        assert(q.subrange(p.len() as int, q.len() as int) =~= q.drop_first().subrange(
            p.drop_first().len() as int,
            q.drop_first().len() as int,
        ));
    }
    if is_prefix(p.drop_first(), q.drop_first()) {
        assert forall|k: int| 0 <= k < p.len() implies q[k] == p[k] by {
            if k > 0 {
                assert(q[k] == q.drop_first().subrange(0, p.len() - 1)[k - 1]);
                assert(p[k] == p.drop_first()[k - 1]);
            }
        };
        assert(q.subrange(0, p.len() as int) =~= p);
    }
}

/// A first match among entries stays where it is when one more entry,
/// with another last segment, is added at the end.
proof fn lemma_find_push(s: Seq<CellView>, x: CellView, leaf: Seq<char>)
    ensures
        x.name.last() != leaf ==> find_leaf(s.push(x), leaf) == find_leaf(s, leaf),
        x.name.last() == leaf && find_leaf(s, leaf) is None ==> find_leaf(s.push(x), leaf) == Some(
            s.len() as int,
        ),
{
    lemma_find_leaf(s, leaf);
    let t = s.push(x);
    assert(forall|i: int| 0 <= i < s.len() ==> t[i] == s[i]);
    if x.name.last() != leaf {
        lemma_find_leaf_is(t, leaf, find_leaf(s, leaf));
    } else if find_leaf(s, leaf) is None {
        lemma_find_leaf_is(t, leaf, Some(s.len() as int));
    }
}

impl Cells {
    /// The level `q` after the cell `c` is added at the relative name `p`.
    pub open spec fn level_after_insert(
        self,
        p: Seq<Seq<char>>,
        c: Cell,
        q: Seq<Seq<char>>,
    ) -> Option<Seq<CellView>> {
        if q == p.drop_last() {
            Some(self.level(q)->Some_0.push(c@))
        } else if is_prefix(p, q) {
            c.below(q.subrange(p.len() as int, q.len() as int))
        } else {
            self.level(q)
        }
    }

    /// Where allocating `p` is vacant, the parent level exists and holds no
    /// entry of that leaf.
    pub proof fn lemma_vacant(self, p: Seq<Seq<char>>, depth: int)
        requires
            p.len() >= 1,
            self.route(p, depth) is Vacant,
        ensures
            self.level(p.drop_last()) is Some,
            find_leaf(self.level(p.drop_last())->Some_0, p.last()) is None,
        decreases p.len(),
    {
        if p.len() > 1 {
            let i = find_leaf(self.entries(), p[0])->Some_0;
            lemma_find_leaf(self.entries(), p[0]);
            match self.cells@[i].state {
                CellState::Allocated { children, .. } => {
                    children.lemma_vacant(p.drop_first(), depth + 1);
                    assert(p.drop_last().drop_first() =~= p.drop_first().drop_last());
                    assert(p.drop_last()[0] == p[0]);
                },
                _ => {},
            }
        }
    }

    /// Adds `cell` at `name`, from the level holding the names with `depth`
    /// segments above it.
    #[verifier::rlimit(60)]
    fn insert_at(&mut self, name: &CellName, depth: usize, cell: Cell)
        requires
            depth < name@.len(),
            cell@.name == name@,
            old(self).route(name@.subrange(depth as int, name@.len() as int), depth as int) is Vacant,
        ensures
            forall|q: Seq<Seq<char>>| #[trigger]
                final(self).level(q) == old(self).level_after_insert(
                    name@.subrange(depth as int, name@.len() as int),
                    cell,
                    q,
                ),
        decreases name@.len() - depth,
    {
        let n = name.depth();
        let ghost p = name@.subrange(depth as int, name@.len() as int);
        let ghost rest = name@.subrange(depth + 1, name@.len() as int);
        assert(p[0] == name@[depth as int]);
        assert(p.drop_first() =~= rest);
        let ghost old_self = *self;
        proof {
            lemma_find_leaf(self.entries(), p[0]);
        }
        if depth + 1 == n {
            let ghost cv = cell@;
            let ghost c = cell;
            assert(p.len() == 1);
            assert(cv.name.last() == p[0]);
            assert(find_leaf(old_self.entries(), p[0]) is None);
            self.cells.push(cell);
            proof {
                assert(self.entries() =~= old_self.entries().push(cv));
                assert forall|q: Seq<Seq<char>>| #[trigger]
                    self.level(q) == old_self.level_after_insert(p, c, q) by {
                    if q.len() == 0 {
                        assert(q =~= p.drop_last());
                    } else {
                        assert(q != p.drop_last());
                        lemma_find_push(old_self.entries(), cv, q[0]);
                        if q[0] == p[0] {
                            assert(find_leaf(self.entries(), q[0]) == Some(old_self.entries().len() as int));
                            assert(self.cells@[old_self.cells@.len() as int] == c);
                            assert(self.level(q) == c.below(q.drop_first()));
                            assert(q.subrange(0, 1) =~= p);
                            assert(q.subrange(1, q.len() as int) =~= q.drop_first());
                        } else {
                            let j = find_leaf(old_self.entries(), q[0]);
                            if j is Some {
                                lemma_find_leaf(old_self.entries(), q[0]);
                                assert(self.cells@[j->Some_0] == old_self.cells@[j->Some_0]);
                            }
                            assert(!is_prefix(p, q));
                        }
                    }
                };
            }
        } else {
            let idx = self.find(name.segment(depth)).unwrap();
            let mut entry = self.cells.remove(idx);
            let ghost before = entry;
            assert(entry.state is Allocated);
            match &mut entry.state {
                CellState::Allocated { children, .. } => {
                    children.insert_at(name, depth + 1, cell);
                },
                _ => {},
            }
            self.cells.insert(idx, entry);
            proof {
                assert(self.cells@ =~= old_self.cells@.update(idx as int, entry));
                assert(entry@ == before@);
                assert(self.entries() =~= old_self.entries());
                assert forall|q: Seq<Seq<char>>| #[trigger]
                    self.level(q) == old_self.level_after_insert(p, cell, q) by {
                    if q.len() == 0 {
                        assert(q != p.drop_last());
                        assert(!is_prefix(p, q));
                    } else if q[0] == p[0] {
                        lemma_paths(p, q);
                        assert(find_leaf(self.entries(), q[0]) == Some(idx as int));
                        let oc = old_self.cells@[idx as int].state->children;
                        let nc = entry.state->children;
                        assert(self.level(q) == nc.level(q.drop_first()));
                        assert(old_self.level(q) == oc.level(q.drop_first()));
                        assert(nc.level(q.drop_first()) == oc.level_after_insert(
                            rest,
                            cell,
                            q.drop_first(),
                        ));
                        assert(p.drop_last()[0] == p[0]);
                        assert(p.drop_last().drop_first() =~= rest.drop_last());
                        assert(old_self.level(p.drop_last()) == oc.level(rest.drop_last()));
                    } else {
                        assert(p.drop_last()[0] == p[0]);
                        assert(q != p.drop_last());
                        if is_prefix(p, q) {
                            assert(q.subrange(0, p.len() as int)[0] == q[0]);
                        }
                        let j = find_leaf(old_self.entries(), q[0]);
                        if j is Some {
                            lemma_find_leaf(old_self.entries(), q[0]);
                            assert(j->Some_0 != idx);
                            assert(self.cells@[j->Some_0] == old_self.cells@[j->Some_0]);
                        }
                    }
                };
            }
        }
    }
}

impl Cells {
    /// The level `q` after a cell named `name`, made with `spec`, is
    /// allocated with `daemon`.
    pub open spec fn level_after_allocate(
        self,
        name: Seq<Seq<char>>,
        daemon: NestedAuraed,
        spec: CellSpec,
        q: Seq<Seq<char>>,
    ) -> Option<Seq<CellView>> {
        if q == name.drop_last() {
            Some(
                self.level(q)->Some_0.push(
                    CellView {
                        name: name,
                        phase: Phase::Allocated,
                        pid: daemon.pid,
                        daemon: Some(daemon),
                        spec: spec,
                    },
                ),
            )
        } else if q == name {
            Some(Seq::empty())
        } else if is_prefix(name, q) {
            None
        } else {
            self.level(q)
        }
    }

    /// Allocates a cell at `cell_name` with the launched daemon. Fails, and
    /// leaves the cache as it was, when an ancestor is missing or not
    /// allocated, when the name is taken, or when the launch failed. On
    /// success the new cell is allocated, with no children, at the end of its
    /// parent's level, and no other level changes.
    pub fn allocate(&mut self, cell_name: CellName, cell_spec: CellSpec, launch: Launch) -> (r: Result<
        (),
        CellsError,
    >)
        requires
            old(self).wf(),
        ensures
            final(self).wf(),
            match old(self).route(cell_name@, 0) {
                Route::Occupied => r is Err && r->Err_0.is(
                    crate::error::ErrorKind::CellExists,
                    cell_name@,
                ) && *final(self) == *old(self),
                Route::NotFound(k) => r is Err && r->Err_0.is(
                    crate::error::ErrorKind::CellNotFound,
                    cell_name@.subrange(0, k),
                ) && *final(self) == *old(self),
                Route::NotAllocated(k) => r is Err && r->Err_0.is(
                    crate::error::ErrorKind::CellNotAllocated,
                    cell_name@.subrange(0, k),
                ) && *final(self) == *old(self),
                Route::Vacant => match launch {
                    Launch::SpawnFailed { reason } => r is Err && r->Err_0.is(
                        crate::error::ErrorKind::FailedToAllocateCell,
                        cell_name@,
                    ) && r->Err_0.source_of() == reason@ && *final(self) == *old(self),
                    Launch::AttachFailed { reason, .. } => r is Err && r->Err_0.is(
                        crate::error::ErrorKind::AbortedAllocateCell,
                        cell_name@,
                    ) && r->Err_0.source_of() == reason@ && *final(self) == *old(self),
                    Launch::Attached { daemon } => r is Ok && forall|q: Seq<Seq<char>>| #[trigger]
                        final(self).level(q) == old(self).level_after_allocate(
                            cell_name@,
                            daemon,
                            cell_spec,
                            q,
                        ),
                },
            },
    {
        let n = cell_name.depth();
        proof {
            assert(cell_name@.subrange(0, n as int) =~= cell_name@);
        }
        if let Err(e) = self.check_at(&cell_name, 0) {
            return Err(e);
        }
        let mut cell = Cell::new(cell_name.clone(), cell_spec);
        let r = cell.allocate(launch);
        if let Err(e) = r {
            return Err(e);
        }
        let ghost c = cell;
        let ghost old_self = *self;
        self.insert_at(&cell_name, 0, cell);
        proof {
            let name = cell_name@;
            old_self.lemma_vacant(name, 0);
            let pl = old_self.level(name.drop_last())->Some_0;
            lemma_find_leaf(pl, name.last());
            assert forall|q: Seq<Seq<char>>| #[trigger]
                self.level(q) == old_self.level_after_allocate(name, c@.daemon->Some_0, c@.spec, q) by {
                if q != name.drop_last() && is_prefix(name, q) {
                    let rest = q.subrange(name.len() as int, q.len() as int);
                    assert(c.below(rest) == if rest.len() == 0 {
                        Some(Seq::<CellView>::empty())
                    } else {
                        None::<Seq<CellView>>
                    });
                    if q.len() == name.len() {
                        assert(q =~= name);
                    }
                }
            };
            assert forall|q: Seq<Seq<char>>| #[trigger]
                self.level(q) is Some implies level_ok(self.level(q)->Some_0, Seq::empty() + q) by {
                assert(Seq::<Seq<char>>::empty() + q =~= q);
                assert(old_self.level(q) is Some ==> level_ok(
                    old_self.level(q)->Some_0,
                    Seq::empty() + q,
                ));
                if q == name.drop_last() {
                    let l = self.level(q)->Some_0;
                    assert(l == pl.push(c@));
                    assert(level_ok(pl, q));
                    assert forall|i: int, j: int|
                        0 <= i < l.len() && 0 <= j < l.len() && i != j implies (#[trigger] l[i]).name.last()
                        != (#[trigger] l[j]).name.last() by {
                        if i < pl.len() && j < pl.len() {
                            assert(l[i] == pl[i] && l[j] == pl[j]);
                        }
                    };
                }
            };
        }
        Ok(())
    }
}

/// Removing the entry at `idx`, whose last segment no other entry shares,
/// moves every other first match down past it.
proof fn lemma_find_remove(s: Seq<CellView>, idx: int, leaf: Seq<char>)
    requires
        0 <= idx < s.len(),
        forall|j: int| 0 <= j < s.len() && j != idx ==> (#[trigger] s[j]).name.last() != s[idx].name.last(),
    ensures
        leaf == s[idx].name.last() ==> find_leaf(s.remove(idx), leaf) is None,
        leaf != s[idx].name.last() ==> find_leaf(s.remove(idx), leaf) == match find_leaf(s, leaf) {
            None => None,
            Some(j) => if j < idx {
                Some(j)
            } else {
                Some(j - 1)
            },
        },
{
    lemma_find_leaf(s, leaf);
    let t = s.remove(idx);
    assert(forall|j: int| 0 <= j < idx ==> t[j] == s[j]);
    assert(forall|j: int| idx <= j < t.len() ==> t[j] == s[j + 1]);
    if leaf == s[idx].name.last() {
        assert forall|j: int| 0 <= j < t.len() implies (#[trigger] t[j]).name.last() != leaf by {
            if j >= idx {
                assert(t[j] == s[j + 1]);
            }
        };
        lemma_find_leaf_is(t, leaf, None);
    } else {
        match find_leaf(s, leaf) {
            None => {
                assert forall|j: int| 0 <= j < t.len() implies (#[trigger] t[j]).name.last() != leaf by {
                    if j >= idx {
                        assert(t[j] == s[j + 1]);
                    }
                };
                lemma_find_leaf_is(t, leaf, None);
            },
            Some(j) => {
                if j < idx {
                    lemma_find_leaf_is(t, leaf, Some(j));
                } else {
                    assert forall|k: int| 0 <= k < j - 1 implies (#[trigger] t[k]).name.last() != leaf by {
                        if k >= idx {
                            assert(t[k] == s[k + 1]);
                        }
                    };
                    lemma_find_leaf_is(t, leaf, Some(j - 1));
                }
            },
        }
    }
}

impl Cells {
    /// The level `q` after the cell at the relative name `p` is removed.
    pub open spec fn level_after_remove(self, p: Seq<Seq<char>>, q: Seq<Seq<char>>) -> Option<
        Seq<CellView>,
    > {
        if q == p.drop_last() {
            Some(
                self.level(q)->Some_0.remove(find_leaf(self.level(q)->Some_0, p.last())->Some_0),
            )
        } else if is_prefix(p, q) {
            None
        } else {
            self.level(q)
        }
    }

    /// The levels below an allocated entry are those of this level, one
    /// segment further down.
    proof fn lemma_child_levels(self, i: int, leaf: Seq<char>)
        requires
            find_leaf(self.entries(), leaf) == Some(i),
            self.cells@[i].state is Allocated,
        ensures
            forall|q: Seq<Seq<char>>| #[trigger]
                self.cells@[i].state->children.level(q) == self.level(seq![leaf] + q),
    {
        assert forall|q: Seq<Seq<char>>| #[trigger]
            self.cells@[i].state->children.level(q) == self.level(seq![leaf] + q) by {
            assert((seq![leaf] + q)[0] == leaf);
            assert((seq![leaf] + q).drop_first() =~= q);
        };
    }

    /// Where the tree below `base` is well formed, so is the one below an
    /// allocated entry, one segment further down.
    proof fn lemma_child_wf(self, base: Seq<Seq<char>>, i: int, leaf: Seq<char>)
        requires
            self.wf_at(base),
            find_leaf(self.entries(), leaf) == Some(i),
            self.cells@[i].state is Allocated,
        ensures
            self.cells@[i].state->children.wf_at(base.push(leaf)),
    {
        self.lemma_child_levels(i, leaf);
        let c = self.cells@[i].state->children;
        assert forall|q: Seq<Seq<char>>| #[trigger] c.level(q) is Some implies level_ok(
            c.level(q)->Some_0,
            base.push(leaf) + q,
        ) by {
            assert(base + (seq![leaf] + q) =~= base.push(leaf) + q);
            assert(self.level(seq![leaf] + q) is Some);
        };
    }

    /// Takes the cell at `name` out of its level, from the level holding the
    /// names with `depth` segments above it.
    #[verifier::rlimit(80)]
    fn remove_at(&mut self, name: &CellName, depth: usize) -> (r: Cell)
        requires
            depth < name@.len(),
            old(self).wf_at(name@.subrange(0, depth as int)),
            old(self).route(name@.subrange(depth as int, name@.len() as int), depth as int) is Occupied,
        ensures
            r@.name.last() == name@.last(),
            r.wf(),
            forall|q: Seq<Seq<char>>| #[trigger]
                r.below(q) == old(self).level(name@.subrange(depth as int, name@.len() as int) + q),
            old(self).at(name@.subrange(depth as int, name@.len() as int)) == Some(r@),
            forall|q: Seq<Seq<char>>| #[trigger]
                final(self).level(q) == old(self).level_after_remove(
                    name@.subrange(depth as int, name@.len() as int),
                    q,
                ),
        decreases name@.len() - depth,
    {
        let n = name.depth();
        let ghost p = name@.subrange(depth as int, name@.len() as int);
        let ghost rest = name@.subrange(depth + 1, name@.len() as int);
        let ghost base = name@.subrange(0, depth as int);
        assert(p[0] == name@[depth as int]);
        assert(p.drop_first() =~= rest);
        let ghost old_self = *self;
        proof {
            lemma_find_leaf(self.entries(), p[0]);
            assert(Seq::<Seq<char>>::empty() + Seq::<Seq<char>>::empty() =~= Seq::<Seq<char>>::empty());
            assert(base + Seq::<Seq<char>>::empty() =~= base);
            assert(self.level(Seq::empty()) == Some(self.entries()));
            assert(level_ok(self.entries(), base));
        }
        let idx = self.find(name.segment(depth)).unwrap();
        if depth + 1 == n {
            let removed = self.cells.remove(idx);
            proof {
                let e = old_self.entries();
                assert(p.len() == 1);
                assert(p.drop_last() =~= Seq::<Seq<char>>::empty());
                assert(self.entries() =~= e.remove(idx as int));
                assert(forall|j: int| 0 <= j < e.len() && j != idx ==> (#[trigger] e[j]).name.last() != e[idx as int].name.last());
                assert(e[idx as int].name.last() == p[0]);
                assert(removed@ == e[idx as int]);
                assert forall|q: Seq<Seq<char>>| #[trigger]
                    removed.below(q) == old_self.level(p + q) by {
                    assert((p + q)[0] == p[0]);
                    assert((p + q).drop_first() =~= q);
                };
                if removed.state is Allocated {
                    old_self.lemma_child_wf(base, idx as int, p[0]);
                    assert(level_ok(e, base));
                    assert(base.push(p[0]) =~= removed@.name);
                }
                assert forall|q: Seq<Seq<char>>| #[trigger]
                    self.level(q) == old_self.level_after_remove(p, q) by {
                    if q.len() == 0 {
                        assert(q == p.drop_last());
                        assert(p.last() == p[0]);
                        assert(find_leaf(e, p.last()) == Some(idx as int));
                    } else {
                        lemma_find_remove(e, idx as int, q[0]);
                        assert(q != p.drop_last());
                        if q[0] == p[0] {
                            assert(q.subrange(0, 1) =~= p);
                            assert(find_leaf(self.entries(), q[0]) is None);
                        } else {
                            if is_prefix(p, q) {
                                assert(q.subrange(0, 1)[0] == q[0]);
                            }
                            let j = find_leaf(e, q[0]);
                            if j is Some {
                                lemma_find_leaf(e, q[0]);
                                let jj = j->Some_0;
                                if jj < idx {
                                    assert(self.cells@[jj] == old_self.cells@[jj]);
                                } else {
                                    assert(self.cells@[jj - 1] == old_self.cells@[jj]);
                                }
                            }
                        }
                    }
                };
            }
            removed
        } else {
            let mut entry = self.cells.remove(idx);
            let ghost before = entry;
            assert(entry.state is Allocated);
            proof {
                old_self.lemma_child_wf(base, idx as int, p[0]);
                assert(base.push(p[0]) =~= name@.subrange(0, depth + 1));
            }
            let removed = match &mut entry.state {
                CellState::Allocated { children, .. } => children.remove_at(name, depth + 1),
                _ => {
                    proof {
                        assert(false);
                    }
                    Cell::new(name.clone(), entry.spec.clone())
                },
            };
            self.cells.insert(idx, entry);
            proof {
                assert(self.cells@ =~= old_self.cells@.update(idx as int, entry));
                assert(entry@ == before@);
                assert(self.entries() =~= old_self.entries());
                let oc = old_self.cells@[idx as int].state->children;
                let nc = entry.state->children;
                assert(p.drop_last()[0] == p[0]);
                assert(p.drop_last().drop_first() =~= rest.drop_last());
                assert(old_self.level(p.drop_last()) == oc.level(rest.drop_last()));
                assert(p.last() == rest.last());
                assert forall|q: Seq<Seq<char>>| #[trigger]
                    removed.below(q) == old_self.level(p + q) by {
                    assert((p + q)[0] == p[0]);
                    assert((p + q).drop_first() =~= rest + q);
                    assert(removed.below(q) == oc.level(rest + q));
                };
                assert forall|q: Seq<Seq<char>>| #[trigger]
                    self.level(q) == old_self.level_after_remove(p, q) by {
                    if q.len() == 0 {
                        assert(q != p.drop_last());
                        assert(!is_prefix(p, q));
                    } else if q[0] == p[0] {
                        lemma_paths(p, q);
                        assert(find_leaf(self.entries(), q[0]) == Some(idx as int));
                        assert(self.level(q) == nc.level(q.drop_first()));
                        assert(old_self.level(q) == oc.level(q.drop_first()));
                    } else {
                        assert(q != p.drop_last());
                        if is_prefix(p, q) {
                            assert(q.subrange(0, p.len() as int)[0] == q[0]);
                        }
                        let j = find_leaf(old_self.entries(), q[0]);
                        if j is Some {
                            lemma_find_leaf(old_self.entries(), q[0]);
                            assert(j->Some_0 != idx);
                            assert(self.cells@[j->Some_0] == old_self.cells@[j->Some_0]);
                        }
                    }
                };
            }
            removed
        }
    }
}

/// `a` is a strict ancestor of `b`.
pub open spec fn strictly_above(a: Seq<Seq<char>>, b: Seq<Seq<char>>) -> bool {
    a.len() < b.len() && is_prefix(a, b)
}

/// From position `from` on, no release comes before that of one of its
/// descendants: the tree is drained bottom-up.
pub open spec fn bottom_up(s: Seq<Release>, from: int) -> bool {
    forall|k: int, l: int|
        from <= k < l < s.len() ==> !strictly_above(
            (#[trigger] s[k]).cell_name@,
            (#[trigger] s[l]).cell_name@,
        )
}

/// From position `from` on, no two releases name the same cell.
pub open spec fn distinct_from(s: Seq<Release>, from: int) -> bool {
    forall|k: int, l: int|
        from <= k < s.len() && from <= l < s.len() && k != l ==> (#[trigger] s[k]).cell_name@
            != (#[trigger] s[l]).cell_name@
}

/// No two names are the same.
pub open spec fn all_distinct(names: Seq<Seq<Seq<char>>>) -> bool {
    forall|k: int, l: int|
        0 <= k < names.len() && 0 <= l < names.len() && k != l ==> #[trigger] names[k]
            != #[trigger] names[l]
}

/// No name comes before one of its descendants.
pub open spec fn drains_bottom_up(names: Seq<Seq<Seq<char>>>) -> bool {
    forall|k: int, l: int|
        0 <= k < l < names.len() ==> !strictly_above(#[trigger] names[k], #[trigger] names[l])
}

proof fn lemma_prefix_trans(a: Seq<Seq<char>>, b: Seq<Seq<char>>, c: Seq<Seq<char>>)
    requires
        is_prefix(a, b),
        is_prefix(b, c),
    ensures
        is_prefix(a, c),
{
    assert forall|k: int| 0 <= k < a.len() implies c[k] == a[k] by {
        assert(c.subrange(0, b.len() as int)[k] == c[k]);
        assert(b.subrange(0, a.len() as int)[k] == b[k]);
    };
    assert(c.subrange(0, a.len() as int) =~= a);
}

impl Cell {
    /// The cell's subtree is well formed: below it live only its
    /// descendants, with unique names at every level.
    pub closed spec fn wf(self) -> bool {
        match self.state {
            CellState::Allocated { children, .. } => children.wf_at(self.cell_name@),
            _ => true,
        }
    }

    /// The descendant at the relative name `q`, if there is one.
    pub closed spec fn sub(self, q: Seq<Seq<char>>) -> Option<CellView> {
        match self.state {
            CellState::Allocated { children, .. } => children.at(q),
            _ => None,
        }
    }

    /// A release of `name` with `pid` is owed by this subtree: it is the cell
    /// itself, allocated, or an allocated descendant, with its own pid.
    pub open spec fn releases_own(self, name: Seq<Seq<char>>, pid: i32) -> bool {
        (self@.phase == Phase::Allocated && name == self@.name && pid == self@.pid) || exists|
            q: Seq<Seq<char>>,
        |
            #![trigger self.sub(q)]
            q.len() >= 1 && self.sub(q) is Some && self.sub(q)->Some_0.phase == Phase::Allocated
                && name == self@.name + q && pid == self.sub(q)->Some_0.pid
    }

    /// Appends the releases of this cell's subtree, each cell after all of
    /// its descendants, this cell last.
    fn collect(&self, out: &mut Vec<Release>)
        requires
            self.wf(),
        ensures
            final(out)@.len() >= old(out)@.len(),
            final(out)@.subrange(0, old(out)@.len() as int) == old(out)@,
            forall|k: int|
                old(out)@.len() <= k < final(out)@.len() ==> is_prefix(
                    self@.name,
                    (#[trigger] final(out)@[k]).cell_name@,
                ),
            self@.phase == Phase::Allocated <==> final(out)@.len() > old(out)@.len(),
            self@.phase == Phase::Allocated ==> final(out)@.last().cell_name@ == self@.name
                && final(out)@.last().pid == self@.pid,
            bottom_up(final(out)@, old(out)@.len() as int),
            distinct_from(final(out)@, old(out)@.len() as int),
            forall|q: Seq<Seq<char>>|
                #![trigger self.sub(q)]
                q.len() >= 1 && self.sub(q) is Some && self.sub(q)->Some_0.phase == Phase::Allocated
                    ==> exists|k: int|
                    old(out)@.len() <= k < final(out)@.len() && (#[trigger] final(out)@[k]).cell_name@
                        == self@.name + q && final(out)@[k].pid == self.sub(q)->Some_0.pid,
            forall|k: int|
                old(out)@.len() <= k < final(out)@.len() ==> self.releases_own(
                    (#[trigger] final(out)@[k]).cell_name@,
                    final(out)@[k].pid,
                ),
        decreases self,
    {
        let ghost start = out@;
        match &self.state {
            CellState::Allocated { nested_auraed, children, .. } => {
                proof {
                    assert forall|q: Seq<Seq<char>>|
                        #![trigger children.at(q)]
                        q.len() >= 1 && children.at(q) is Some && find_leaf(children.entries(), q[0]) is Some
                            implies find_leaf(children.entries(), q[0])->Some_0 >= 0 by {
                        lemma_find_leaf(children.entries(), q[0]);
                    };
                }
                let mut i: usize = 0;
                while i < children.cells.len()
                    invariant
                        self.state is Allocated,
                        *children == self.state->children,
                        children.wf_at(self.cell_name@),
                        i <= children.cells@.len(),
                        bottom_up(out@, start.len() as int),
                        distinct_from(out@, start.len() as int),
                        forall|k: int|
                            start.len() <= k < out@.len() ==> (#[trigger] out@[k]).cell_name@.len()
                                > self@.name.len(),
                        forall|q: Seq<Seq<char>>|
                            #![trigger children.at(q)]
                            q.len() >= 1 && children.at(q) is Some && children.at(q)->Some_0.phase
                                == Phase::Allocated && find_leaf(children.entries(), q[0]) is Some
                                && find_leaf(children.entries(), q[0])->Some_0 < i ==> exists|k: int|
                                start.len() <= k < out@.len() && (#[trigger] out@[k]).cell_name@
                                    == self@.name + q && out@[k].pid == children.at(q)->Some_0.pid,
                        forall|k: int|
                            start.len() <= k < out@.len() ==> self.releases_own(
                                (#[trigger] out@[k]).cell_name@,
                                out@[k].pid,
                            ),
                        forall|k: int, j: int|
                            start.len() <= k < out@.len() && i <= j < children.cells@.len() ==> (#[trigger] out@[k]).cell_name@.len()
                                > self@.name.len() && out@[k].cell_name@[self@.name.len() as int]
                                != (#[trigger] children.entries()[j]).name.last(),
                        out@.len() >= start.len(),
                        out@.subrange(0, start.len() as int) == start,
                        forall|k: int|
                            start.len() <= k < out@.len() ==> is_prefix(
                                self@.name,
                                (#[trigger] out@[k]).cell_name@,
                            ),
                    decreases children.cells@.len() - i,
                {
                    let child = &children.cells[i];
                    let ghost before = out@;
                    proof {
                        let e = children.entries();
                        assert(children.level(Seq::empty()) == Some(e));
                        assert(self.cell_name@ + Seq::<Seq<char>>::empty() =~= self.cell_name@);
                        assert(level_ok(e, self.cell_name@));
                        assert(e[i as int] == child@);
                        lemma_find_leaf_is(e, child@.name.last(), Some(i as int));
                        if child.state is Allocated {
                            children.lemma_child_wf(self.cell_name@, i as int, child@.name.last());
                            assert(self.cell_name@.push(child@.name.last()) =~= child@.name);
                        }
                        assert(child.cell_name@ == child@.name);
                        assert(is_prefix(self@.name, child@.name)) by {
                            assert(child@.name.subrange(0, self@.name.len() as int) =~= child@.name.drop_last());
                        };
                        assert(decreases_to!(self => self.state));
                        assert(decreases_to!(self.state => self.state->children));
                        assert(decreases_to!(children => children.cells));
                        vstd::std_specs::vec::axiom_vec_index_decreases(children.cells, i as int);
                    }
                    child.collect(out);
                    proof {
                        let d = self@.name.len() as int;
                        let e = children.entries();
                        assert(level_ok(e, self.cell_name@));
                        assert(child@.name.len() == d + 1);
                        assert forall|l: int| before.len() <= l < out@.len() implies (#[trigger] out@[l]).cell_name@.len()
                            > d && out@[l].cell_name@[d] == e[i as int].name.last() by {
                            let nl = out@[l].cell_name@;
                            assert(is_prefix(child@.name, nl));
                            assert(nl.subrange(0, d + 1)[d] == nl[d]);
                        };
                        assert forall|k: int| 0 <= k < before.len() implies out@[k] == before[k] by {
                            assert(out@.subrange(0, before.len() as int)[k] == out@[k]);
                        };
                        assert forall|k: int, l: int|
                            start.len() <= k < l < out@.len() implies !strictly_above(
                            (#[trigger] out@[k]).cell_name@,
                            (#[trigger] out@[l]).cell_name@,
                        ) by {
                            if l < before.len() {
                                assert(out@[k] == before[k] && out@[l] == before[l]);
                            } else if k >= before.len() {
                            } else {
                                let nk = out@[k].cell_name@;
                                let nl = out@[l].cell_name@;
                                assert(out@[k] == before[k]);
                                assert(nk[d] != e[i as int].name.last());
                                if strictly_above(nk, nl) {
                                    assert(nl.subrange(0, nk.len() as int)[d] == nl[d]);
                                }
                            }
                        };
                        assert forall|k: int| start.len() <= k < out@.len() implies (#[trigger] out@[k]).cell_name@.len()
                            > d by {
                            if k < before.len() {
                                assert(out@[k] == before[k]);
                            }
                        };
                        assert forall|k: int, l: int|
                            start.len() <= k < out@.len() && start.len() <= l < out@.len() && k
                                != l implies (#[trigger] out@[k]).cell_name@ != (#[trigger] out@[l]).cell_name@ by {
                            if k < before.len() && l < before.len() {
                                assert(out@[k] == before[k] && out@[l] == before[l]);
                            } else if k < before.len() {
                                assert(out@[k] == before[k]);
                                assert(out@[k].cell_name@[d] != e[i as int].name.last());
                            } else if l < before.len() {
                                assert(out@[l] == before[l]);
                                assert(out@[l].cell_name@[d] != e[i as int].name.last());
                            }
                        };
                        assert forall|q: Seq<Seq<char>>|
                            #![trigger children.at(q)]
                            q.len() >= 1 && children.at(q) is Some && children.at(q)->Some_0.phase
                                == Phase::Allocated && find_leaf(children.entries(), q[0]) is Some
                                && find_leaf(children.entries(), q[0])->Some_0 < i + 1 implies exists|k: int|
                                start.len() <= k < out@.len() && (#[trigger] out@[k]).cell_name@
                                    == self@.name + q && out@[k].pid == children.at(q)->Some_0.pid by {
                            let f = find_leaf(e, q[0])->Some_0;
                            lemma_find_leaf(e, q[0]);
                            if f < i {
                                let k0 = choose|k: int|
                                    start.len() <= k < before.len() && (#[trigger] before[k]).cell_name@
                                        == self@.name + q && before[k].pid == children.at(q)->Some_0.pid;
                                assert(out@[k0] == before[k0]);
                            } else {
                                assert(f == i);
                                assert(e[i as int].name.last() == q[0]);
                                assert(child@.name =~= self@.name.push(q[0]));
                                if q.len() == 1 {
                                    assert(q.drop_last() =~= Seq::<Seq<char>>::empty());
                                    assert(q.last() == q[0]);
                                    assert(children.at(q) == Some(e[i as int]));
                                    assert(self@.name + q =~= child@.name);
                                    assert(out@[out@.len() - 1].cell_name@ == self@.name + q);
                                } else {
                                    children.lemma_at_step(q, i as int);
                                    assert(child.sub(q.drop_first()) == children.at(q));
                                    let k1 = choose|k: int|
                                        before.len() <= k < out@.len() && (#[trigger] out@[k]).cell_name@
                                            == child@.name + q.drop_first() && out@[k].pid == child.sub(
                                            q.drop_first(),
                                        )->Some_0.pid;
                                    assert(child@.name + q.drop_first() =~= self@.name + q);
                                }
                            }
                        };
                        assert forall|k: int| start.len() <= k < out@.len() implies self.releases_own(
                            (#[trigger] out@[k]).cell_name@,
                            out@[k].pid,
                        ) by {
                            if k < before.len() {
                                assert(out@[k] == before[k]);
                            } else {
                                children.lemma_child_releases(self, i as int, out@[k].cell_name@, out@[k].pid);
                            }
                        };
                        assert forall|k: int, j: int|
                            start.len() <= k < out@.len() && i + 1 <= j < children.cells@.len() implies (#[trigger] out@[k]).cell_name@.len()
                            > d && out@[k].cell_name@[d] != (#[trigger] e[j]).name.last() by {
                            if k < before.len() {
                                assert(out@[k] == before[k]);
                            } else {
                                assert(e[i as int].name.last() != e[j].name.last());
                            }
                        };
                        assert forall|k: int| start.len() <= k < out@.len() implies is_prefix(
                            self@.name,
                            (#[trigger] out@[k]).cell_name@,
                        ) by {
                            if k < before.len() {
                                assert(out@.subrange(0, before.len() as int)[k] == out@[k]);
                            } else {
                                lemma_prefix_trans(self@.name, child@.name, out@[k].cell_name@);
                            }
                        };
                        assert(out@.subrange(0, start.len() as int) =~= start) by {
                            assert(out@.subrange(0, before.len() as int) == before);
                            assert forall|k: int| 0 <= k < start.len() implies out@[k] == start[k] by {
                                assert(out@.subrange(0, before.len() as int)[k] == out@[k]);
                                assert(before.subrange(0, start.len() as int)[k] == before[k]);
                            };
                        };
                    }
                    i = i + 1;
                }
                let ghost before = out@;
                out.push(Release { cell_name: self.cell_name.clone(), pid: nested_auraed.pid });
                proof {
                    assert(out@.subrange(0, start.len() as int) =~= start) by {
                        assert forall|k: int| 0 <= k < start.len() implies out@[k] == start[k] by {
                            assert(before.subrange(0, start.len() as int)[k] == before[k]);
                        };
                    };
                    assert forall|q: Seq<Seq<char>>|
                        #![trigger self.sub(q)]
                        q.len() >= 1 && self.sub(q) is Some && self.sub(q)->Some_0.phase == Phase::Allocated
                            implies exists|k: int|
                            start.len() <= k < out@.len() && (#[trigger] out@[k]).cell_name@
                                == self@.name + q && out@[k].pid == self.sub(q)->Some_0.pid by {
                        assert(self.sub(q) == children.at(q));
                        lemma_find_leaf(children.entries(), q[0]);
                        if q.len() == 1 {
                            assert(q.drop_last() =~= Seq::<Seq<char>>::empty());
                            assert(q.last() == q[0]);
                        } else {
                            assert(q.drop_last()[0] == q[0]);
                        }
                        let k0 = choose|k: int|
                            start.len() <= k < before.len() && (#[trigger] before[k]).cell_name@
                                == self@.name + q && before[k].pid == children.at(q)->Some_0.pid;
                        assert(out@[k0] == before[k0]);
                    };
                    assert forall|k: int| start.len() <= k < out@.len() implies self.releases_own(
                        (#[trigger] out@[k]).cell_name@,
                        out@[k].pid,
                    ) by {
                        if k < before.len() {
                            assert(out@[k] == before[k]);
                        }
                    };
                    assert forall|k: int, l: int|
                        start.len() <= k < l < out@.len() implies !strictly_above(
                        (#[trigger] out@[k]).cell_name@,
                        (#[trigger] out@[l]).cell_name@,
                    ) by {
                        assert(out@[k] == before[k]);
                        if l < before.len() {
                            assert(out@[l] == before[l]);
                        } else {
                            assert(children.cells@.len() == i);
                        }
                    };
                    assert forall|k: int, l: int|
                        start.len() <= k < out@.len() && start.len() <= l < out@.len() && k
                            != l implies (#[trigger] out@[k]).cell_name@ != (#[trigger] out@[l]).cell_name@ by {
                        if k < before.len() && l < before.len() {
                            assert(out@[k] == before[k] && out@[l] == before[l]);
                        } else if k < before.len() {
                            assert(out@[k] == before[k]);
                            assert(children.cells@.len() == i);
                        } else {
                            assert(out@[l] == before[l]);
                            assert(children.cells@.len() == i);
                        }
                    };
                    assert(is_prefix(self@.name, self@.name)) by {
                        assert(self@.name.subrange(0, self@.name.len() as int) =~= self@.name);
                    };
                }
            },
            _ => {
                proof {
                    assert(out@.subrange(0, start.len() as int) =~= start);
                }
            },
        }
    }

    fn release(&mut self, graceful: bool) -> (r: Teardown)
        requires
            old(self).wf(),
        ensures
            final(self)@ == (CellView {
                name: old(self)@.name,
                phase: Phase::Freed,
                pid: 0,
                daemon: None,
                spec: old(self)@.spec,
            }),
            final(self).spec_view() == old(self).spec_view(),
            final(self).wf(),
            r.wf(),
            r@.graceful == graceful,
            r@.pos == 0,
            !r@.stopped,
            r@.error is None,
            r@.names.len() == r@.pids.len(),
            old(self)@.phase == Phase::Allocated <==> r@.names.len() > 0,
            old(self)@.phase == Phase::Allocated ==> r@.names.last() == old(self)@.name
                && r@.pids.last() == old(self)@.pid,
            forall|k: int| 0 <= k < r@.names.len() ==> is_prefix(old(self)@.name, #[trigger] r@.names[k]),
            drains_bottom_up(r@.names),
            all_distinct(r@.names),
            forall|q: Seq<Seq<char>>|
                #![trigger old(self).sub(q)]
                q.len() >= 1 && old(self).sub(q) is Some && old(self).sub(q)->Some_0.phase
                    == Phase::Allocated ==> exists|k: int|
                    0 <= k < r@.names.len() && #[trigger] r@.names[k] == old(self)@.name + q
                        && r@.pids[k] == old(self).sub(q)->Some_0.pid,
            forall|k: int| 0 <= k < r@.names.len() ==> old(self).releases_own(#[trigger] r@.names[k], r@.pids[k]),
    {
        let mut out: Vec<Release> = Vec::new();
        self.collect(&mut out);
        self.state = CellState::Freed;
        let t = Teardown::new(out, graceful);
        proof {
            assert forall|q: Seq<Seq<char>>|
                #![trigger old(self).sub(q)]
                q.len() >= 1 && old(self).sub(q) is Some && old(self).sub(q)->Some_0.phase
                    == Phase::Allocated implies exists|k: int|
                    0 <= k < t@.names.len() && #[trigger] t@.names[k] == old(self)@.name + q
                        && t@.pids[k] == old(self).sub(q)->Some_0.pid by {
                let k0 = choose|k: int|
                    0 <= k < out@.len() && (#[trigger] out@[k]).cell_name@ == old(self)@.name + q
                        && out@[k].pid == old(self).sub(q)->Some_0.pid;
                assert(t@.names[k0] == out@[k0].cell_name@ && t@.pids[k0] == out@[k0].pid);
            };
            assert forall|k: int| 0 <= k < t@.names.len() implies old(self).releases_own(
                #[trigger] t@.names[k],
                t@.pids[k],
            ) by {
                assert(t@.names[k] == out@[k].cell_name@ && t@.pids[k] == out@[k].pid);
            };
            assert forall|k: int, l: int| 0 <= k < l < t@.names.len() implies !strictly_above(
                #[trigger] t@.names[k],
                #[trigger] t@.names[l],
            ) by {
                assert(t@.names[k] == out@[k].cell_name@ && t@.names[l] == out@[l].cell_name@);
            };
            assert forall|k: int, l: int|
                0 <= k < t@.names.len() && 0 <= l < t@.names.len() && k != l implies #[trigger] t@.names[k]
                != #[trigger] t@.names[l] by {
                assert(t@.names[k] == out@[k].cell_name@ && t@.names[l] == out@[l].cell_name@);
            };
            assert forall|k: int| 0 <= k < t@.names.len() implies is_prefix(
                old(self)@.name,
                #[trigger] t@.names[k],
            ) by {
                assert(t@.names[k] == out@[k].cell_name@);
            };
            if out@.len() > 0 {
                assert(t@.names.last() == out@.last().cell_name@);
                assert(t@.pids.last() == out@.last().pid);
            }
        }
        t
    }

    /// Frees the cell gracefully: the cell becomes `Freed` whatever its
    /// phase was, and the returned teardown stops every nested daemon of its
    /// subtree (children before parents, this cell last) and removes each
    /// cgroup. A freed cell never leaves `Freed`.
    pub fn free(&mut self) -> (r: Teardown)
        requires
            old(self).wf(),
        ensures
            final(self)@ == (CellView {
                name: old(self)@.name,
                phase: Phase::Freed,
                pid: 0,
                daemon: None,
                spec: old(self)@.spec,
            }),
            final(self).spec_view() == old(self).spec_view(),
            final(self).wf(),
            r.wf(),
            r@.graceful,
            r@.pos == 0 && !r@.stopped && r@.error is None,
            r@.names.len() == r@.pids.len(),
            old(self)@.phase == Phase::Allocated <==> r@.names.len() > 0,
            old(self)@.phase == Phase::Allocated ==> r@.names.last() == old(self)@.name
                && r@.pids.last() == old(self)@.pid,
            forall|k: int| 0 <= k < r@.names.len() ==> is_prefix(old(self)@.name, #[trigger] r@.names[k]),
            drains_bottom_up(r@.names),
            all_distinct(r@.names),
            forall|q: Seq<Seq<char>>|
                #![trigger old(self).sub(q)]
                q.len() >= 1 && old(self).sub(q) is Some && old(self).sub(q)->Some_0.phase
                    == Phase::Allocated ==> exists|k: int|
                    0 <= k < r@.names.len() && #[trigger] r@.names[k] == old(self)@.name + q
                        && r@.pids[k] == old(self).sub(q)->Some_0.pid,
            forall|k: int| 0 <= k < r@.names.len() ==> old(self).releases_own(#[trigger] r@.names[k], r@.pids[k]),
    {
        self.release(true)
    }

    /// As `free`, but every nested daemon is killed rather than asked to
    /// stop. This is also what is owed to a cell that is dropped while
    /// allocated.
    pub fn kill(&mut self) -> (r: Teardown)
        requires
            old(self).wf(),
        ensures
            final(self)@ == (CellView {
                name: old(self)@.name,
                phase: Phase::Freed,
                pid: 0,
                daemon: None,
                spec: old(self)@.spec,
            }),
            final(self).spec_view() == old(self).spec_view(),
            final(self).wf(),
            r.wf(),
            !r@.graceful,
            r@.pos == 0 && !r@.stopped && r@.error is None,
            r@.names.len() == r@.pids.len(),
            old(self)@.phase == Phase::Allocated <==> r@.names.len() > 0,
            old(self)@.phase == Phase::Allocated ==> r@.names.last() == old(self)@.name
                && r@.pids.last() == old(self)@.pid,
            forall|k: int| 0 <= k < r@.names.len() ==> is_prefix(old(self)@.name, #[trigger] r@.names[k]),
            drains_bottom_up(r@.names),
            all_distinct(r@.names),
            forall|q: Seq<Seq<char>>|
                #![trigger old(self).sub(q)]
                q.len() >= 1 && old(self).sub(q) is Some && old(self).sub(q)->Some_0.phase
                    == Phase::Allocated ==> exists|k: int|
                    0 <= k < r@.names.len() && #[trigger] r@.names[k] == old(self)@.name + q
                        && r@.pids[k] == old(self).sub(q)->Some_0.pid,
            forall|k: int| 0 <= k < r@.names.len() ==> old(self).releases_own(#[trigger] r@.names[k], r@.pids[k]),
    {
        self.release(false)
    }
}

impl Cells {
    /// Checks that `name` exists, from the root.
    fn locate(&self, name: &CellName) -> (r: Result<(), CellsError>)
        ensures
            match self.route(name@, 0) {
                Route::Occupied => r is Ok,
                Route::Vacant => r is Err && r->Err_0.is(crate::error::ErrorKind::CellNotFound, name@),
                Route::NotFound(k) => r is Err && r->Err_0.is(
                    crate::error::ErrorKind::CellNotFound,
                    name@.subrange(0, k),
                ),
                Route::NotAllocated(k) => r is Err && r->Err_0.is(
                    crate::error::ErrorKind::CellNotAllocated,
                    name@.subrange(0, k),
                ),
            },
    {
        let n = name.depth();
        proof {
            assert(name@.subrange(0, n as int) =~= name@);
        }
        match self.check_at(name, 0) {
            Ok(()) => Err(CellsError::CellNotFound { cell_name: name.clone() }),
            Err(e) => {
                if e.kind() == crate::error::ErrorKind::CellExists {
                    Ok(())
                } else {
                    Err(e)
                }
            },
        }
    }

    fn take(&mut self, cell_name: &CellName, graceful: bool) -> (r: Result<Teardown, CellsError>)
        requires
            old(self).wf(),
        ensures
            final(self).wf(),
            match old(self).route(cell_name@, 0) {
                Route::Occupied => r is Ok && forall|q: Seq<Seq<char>>| #[trigger]
                    final(self).level(q) == old(self).level_after_remove(cell_name@, q),
                Route::Vacant => r is Err && r->Err_0.is(
                    crate::error::ErrorKind::CellNotFound,
                    cell_name@,
                ) && *final(self) == *old(self),
                Route::NotFound(k) => r is Err && r->Err_0.is(
                    crate::error::ErrorKind::CellNotFound,
                    cell_name@.subrange(0, k),
                ) && *final(self) == *old(self),
                Route::NotAllocated(k) => r is Err && r->Err_0.is(
                    crate::error::ErrorKind::CellNotAllocated,
                    cell_name@.subrange(0, k),
                ) && *final(self) == *old(self),
            },
            r matches Ok(t) ==> {
                &&& t.wf()
                &&& t@.graceful == graceful
                &&& t@.pos == 0 && !t@.stopped && t@.error is None
                &&& t@.names.len() == t@.pids.len()
                &&& old(self).at(cell_name@) is Some
                &&& (old(self).at(cell_name@)->Some_0.phase == Phase::Allocated <==> t@.names.len() > 0)
                &&& (old(self).at(cell_name@)->Some_0.phase == Phase::Allocated ==> t@.names.last()
                    == cell_name@ && t@.pids.last() == old(self).at(cell_name@)->Some_0.pid)
                &&& forall|k: int| 0 <= k < t@.names.len() ==> is_prefix(cell_name@, #[trigger] t@.names[k])
                &&& drains_bottom_up(t@.names)
                &&& all_distinct(t@.names)
                &&& forall|q: Seq<Seq<char>>|
                    #![trigger old(self).at(cell_name@ + q)]
                    old(self).at(cell_name@ + q) is Some && old(self).at(cell_name@ + q)->Some_0.phase
                        == Phase::Allocated ==> exists|k: int|
                        0 <= k < t@.names.len() && #[trigger] t@.names[k] == cell_name@ + q
                            && t@.pids[k] == old(self).at(cell_name@ + q)->Some_0.pid
                &&& forall|k: int|
                    0 <= k < t@.names.len() ==> old(self).at(#[trigger] t@.names[k]) is Some && old(
                        self,
                    ).at(t@.names[k])->Some_0.phase == Phase::Allocated && old(self).at(
                        t@.names[k],
                    )->Some_0.pid == t@.pids[k]
            },
    {
        if let Err(e) = self.locate(cell_name) {
            return Err(e);
        }
        let n = cell_name.depth();
        let ghost old_self = *self;
        proof {
            assert(cell_name@.subrange(0, n as int) =~= cell_name@);
            assert(cell_name@.subrange(0, 0) =~= Seq::<Seq<char>>::empty());
        }
        let mut cell = self.remove_at(cell_name, 0);
        proof {
            let name = cell_name@;
            assert(old_self.at(name) == Some(cell@));
            let pl = old_self.level(name.drop_last())->Some_0;
            assert forall|q: Seq<Seq<char>>| #[trigger]
                self.level(q) is Some implies level_ok(self.level(q)->Some_0, Seq::empty() + q) by {
                assert(Seq::<Seq<char>>::empty() + q =~= q);
                assert(old_self.level(q) is Some ==> level_ok(
                    old_self.level(q)->Some_0,
                    Seq::empty() + q,
                ));
                if q == name.drop_last() {
                    let idx = find_leaf(pl, name.last())->Some_0;
                    lemma_find_leaf(pl, name.last());
                    let l = self.level(q)->Some_0;
                    assert(l == pl.remove(idx));
                    assert(level_ok(pl, q));
                    assert(forall|i: int| 0 <= i < l.len() ==> l[i] == if i < idx { pl[i] } else { pl[i + 1] });
                    assert forall|i: int, j: int|
                        0 <= i < l.len() && 0 <= j < l.len() && i != j implies (#[trigger] l[i]).name.last()
                        != (#[trigger] l[j]).name.last() by {
                        let ii = if i < idx { i } else { i + 1 };
                        let jj = if j < idx { j } else { j + 1 };
                        assert(l[i] == pl[ii] && l[j] == pl[jj]);
                    };
                }
            };
        }
        let ghost removed = cell;
        let t = cell.release(graceful);
        proof {
            let name = cell_name@;
            assert forall|q: Seq<Seq<char>>|
                #![trigger removed.sub(q)]
                q.len() >= 1 implies removed.sub(q) == old_self.at(name + q) by {
                assert((name + q).drop_last() =~= name + q.drop_last());
                assert((name + q).last() == q.last());
                assert(removed.below(q.drop_last()) == old_self.level(name + q.drop_last()));
            };
            let pl = old_self.level(name.drop_last())->Some_0;
            assert(Seq::<Seq<char>>::empty() + name.drop_last() =~= name.drop_last());
            assert(level_ok(pl, name.drop_last()));
            lemma_find_leaf(pl, name.last());
            let v = old_self.at(name)->Some_0;
            assert(v.name.drop_last() == name.drop_last() && v.name.last() == name.last());
            assert(v.name =~= name) by {
                assert(v.name == v.name.drop_last().push(v.name.last()));
                assert(name == name.drop_last().push(name.last()));
            };
            assert(name + Seq::<Seq<char>>::empty() =~= name);
            assert forall|q: Seq<Seq<char>>|
                #![trigger old_self.at(name + q)]
                old_self.at(name + q) is Some && old_self.at(name + q)->Some_0.phase
                    == Phase::Allocated implies exists|k: int|
                    0 <= k < t@.names.len() && #[trigger] t@.names[k] == name + q && t@.pids[k]
                        == old_self.at(name + q)->Some_0.pid by {
                if q.len() == 0 {
                    assert(t@.names[t@.names.len() - 1] == name + q);
                } else {
                    assert(removed.sub(q) == old_self.at(name + q));
                }
            };
            assert forall|k: int| 0 <= k < t@.names.len() implies old_self.at(#[trigger] t@.names[k])
                is Some && old_self.at(t@.names[k])->Some_0.phase == Phase::Allocated
                && old_self.at(t@.names[k])->Some_0.pid == t@.pids[k] by {
                assert(removed.releases_own(t@.names[k], t@.pids[k]));
                if !(removed@.phase == Phase::Allocated && t@.names[k] == removed@.name && t@.pids[k]
                    == removed@.pid) {
                    let q = choose|q: Seq<Seq<char>>|
                        #![trigger removed.sub(q)]
                        q.len() >= 1 && removed.sub(q) is Some && removed.sub(q)->Some_0.phase
                            == Phase::Allocated && t@.names[k] == removed@.name + q && t@.pids[k]
                            == removed.sub(q)->Some_0.pid;
                    assert(removed.sub(q) == old_self.at(name + q));
                }
            };
        }
        Ok(t)
    }

    /// Frees the cell at `cell_name` gracefully and removes it from its
    /// level. The cell and its whole subtree leave the cache; the returned
    /// teardown releases their kernel resources, descendants first. Fails,
    /// changing nothing, when the cell or an ancestor is missing, or an
    /// ancestor is not allocated.
    pub fn free(&mut self, cell_name: &CellName) -> (r: Result<Teardown, CellsError>)
        requires
            old(self).wf(),
        ensures
            final(self).wf(),
            match old(self).route(cell_name@, 0) {
                Route::Occupied => r is Ok && forall|q: Seq<Seq<char>>| #[trigger]
                    final(self).level(q) == old(self).level_after_remove(cell_name@, q),
                Route::Vacant => r is Err && r->Err_0.is(
                    crate::error::ErrorKind::CellNotFound,
                    cell_name@,
                ) && *final(self) == *old(self),
                Route::NotFound(k) => r is Err && r->Err_0.is(
                    crate::error::ErrorKind::CellNotFound,
                    cell_name@.subrange(0, k),
                ) && *final(self) == *old(self),
                Route::NotAllocated(k) => r is Err && r->Err_0.is(
                    crate::error::ErrorKind::CellNotAllocated,
                    cell_name@.subrange(0, k),
                ) && *final(self) == *old(self),
            },
            r matches Ok(t) ==> {
                &&& t.wf()
                &&& t@.graceful
                &&& t@.pos == 0 && !t@.stopped && t@.error is None
                &&& t@.names.len() == t@.pids.len()
                &&& old(self).at(cell_name@) is Some
                &&& (old(self).at(cell_name@)->Some_0.phase == Phase::Allocated <==> t@.names.len() > 0)
                &&& (old(self).at(cell_name@)->Some_0.phase == Phase::Allocated ==> t@.names.last()
                    == cell_name@ && t@.pids.last() == old(self).at(cell_name@)->Some_0.pid)
                &&& forall|k: int| 0 <= k < t@.names.len() ==> is_prefix(cell_name@, #[trigger] t@.names[k])
                &&& drains_bottom_up(t@.names)
                &&& all_distinct(t@.names)
                &&& forall|q: Seq<Seq<char>>|
                    #![trigger old(self).at(cell_name@ + q)]
                    old(self).at(cell_name@ + q) is Some && old(self).at(cell_name@ + q)->Some_0.phase
                        == Phase::Allocated ==> exists|k: int|
                        0 <= k < t@.names.len() && #[trigger] t@.names[k] == cell_name@ + q
                            && t@.pids[k] == old(self).at(cell_name@ + q)->Some_0.pid
                &&& forall|k: int|
                    0 <= k < t@.names.len() ==> old(self).at(#[trigger] t@.names[k]) is Some && old(
                        self,
                    ).at(t@.names[k])->Some_0.phase == Phase::Allocated && old(self).at(
                        t@.names[k],
                    )->Some_0.pid == t@.pids[k]
            },
    {
        self.take(cell_name, true)
    }

    /// As `free`, but the teardown kills every nested daemon.
    pub fn kill(&mut self, cell_name: &CellName) -> (r: Result<Teardown, CellsError>)
        requires
            old(self).wf(),
        ensures
            final(self).wf(),
            match old(self).route(cell_name@, 0) {
                Route::Occupied => r is Ok && forall|q: Seq<Seq<char>>| #[trigger]
                    final(self).level(q) == old(self).level_after_remove(cell_name@, q),
                Route::Vacant => r is Err && r->Err_0.is(
                    crate::error::ErrorKind::CellNotFound,
                    cell_name@,
                ) && *final(self) == *old(self),
                Route::NotFound(k) => r is Err && r->Err_0.is(
                    crate::error::ErrorKind::CellNotFound,
                    cell_name@.subrange(0, k),
                ) && *final(self) == *old(self),
                Route::NotAllocated(k) => r is Err && r->Err_0.is(
                    crate::error::ErrorKind::CellNotAllocated,
                    cell_name@.subrange(0, k),
                ) && *final(self) == *old(self),
            },
            r matches Ok(t) ==> {
                &&& t.wf()
                &&& !t@.graceful
                &&& t@.pos == 0 && !t@.stopped && t@.error is None
                &&& t@.names.len() == t@.pids.len()
                &&& old(self).at(cell_name@) is Some
                &&& (old(self).at(cell_name@)->Some_0.phase == Phase::Allocated <==> t@.names.len() > 0)
                &&& (old(self).at(cell_name@)->Some_0.phase == Phase::Allocated ==> t@.names.last()
                    == cell_name@ && t@.pids.last() == old(self).at(cell_name@)->Some_0.pid)
                &&& forall|k: int| 0 <= k < t@.names.len() ==> is_prefix(cell_name@, #[trigger] t@.names[k])
                &&& drains_bottom_up(t@.names)
                &&& all_distinct(t@.names)
                &&& forall|q: Seq<Seq<char>>|
                    #![trigger old(self).at(cell_name@ + q)]
                    old(self).at(cell_name@ + q) is Some && old(self).at(cell_name@ + q)->Some_0.phase
                        == Phase::Allocated ==> exists|k: int|
                        0 <= k < t@.names.len() && #[trigger] t@.names[k] == cell_name@ + q
                            && t@.pids[k] == old(self).at(cell_name@ + q)->Some_0.pid
                &&& forall|k: int|
                    0 <= k < t@.names.len() ==> old(self).at(#[trigger] t@.names[k]) is Some && old(
                        self,
                    ).at(t@.names[k])->Some_0.phase == Phase::Allocated && old(self).at(
                        t@.names[k],
                    )->Some_0.pid == t@.pids[k]
            },
    {
        self.take(cell_name, false)
    }
}

impl Cells {
    /// One level down, the cell at `p` is the one at `p` without its first
    /// segment.
    proof fn lemma_at_step(self, p: Seq<Seq<char>>, i: int)
        requires
            p.len() >= 2,
            find_leaf(self.entries(), p[0]) == Some(i),
            self.cells@[i].state is Allocated,
        ensures
            self.at(p) == self.cells@[i].state->children.at(p.drop_first()),
    {
        assert(p.drop_last()[0] == p[0]);
        assert(p.drop_last().drop_first() =~= p.drop_first().drop_last());
        assert(p.last() == p.drop_first().last());
    }

    /// The cell at a relative name whose allocation is occupied.
    fn get_at(&self, name: &CellName, depth: usize) -> (r: &Cell)
        requires
            depth < name@.len(),
            self.route(name@.subrange(depth as int, name@.len() as int), depth as int) is Occupied,
        ensures
            self.at(name@.subrange(depth as int, name@.len() as int)) == Some(r@),
        decreases name@.len() - depth,
    {
        let n = name.depth();
        let ghost p = name@.subrange(depth as int, name@.len() as int);
        assert(p[0] == name@[depth as int]);
        assert(p.drop_first() =~= name@.subrange(depth + 1, name@.len() as int));
        let idx = self.find(name.segment(depth)).unwrap();
        proof {
            lemma_find_leaf(self.entries(), p[0]);
        }
        if depth + 1 == n {
            assert(p.drop_last() =~= Seq::<Seq<char>>::empty());
            &self.cells[idx]
        } else {
            match &self.cells[idx].state {
                CellState::Allocated { children, .. } => {
                    proof {
                        self.lemma_at_step(p, idx as int);
                    }
                    children.get_at(name, depth + 1)
                },
                _ => {
                    proof {
                        assert(false);
                    }
                    &self.cells[idx]
                },
            }
        }
    }

    /// The cell at `cell_name`, for reading; fails as `free` does.
    pub fn get(&self, cell_name: &CellName) -> (r: Result<&Cell, CellsError>)
        ensures
            match self.route(cell_name@, 0) {
                Route::Occupied => r is Ok && self.at(cell_name@) == Some(r->Ok_0@),
                Route::Vacant => r is Err && r->Err_0.is(
                    crate::error::ErrorKind::CellNotFound,
                    cell_name@,
                ),
                Route::NotFound(k) => r is Err && r->Err_0.is(
                    crate::error::ErrorKind::CellNotFound,
                    cell_name@.subrange(0, k),
                ),
                Route::NotAllocated(k) => r is Err && r->Err_0.is(
                    crate::error::ErrorKind::CellNotAllocated,
                    cell_name@.subrange(0, k),
                ),
            },
    {
        if let Err(e) = self.locate(cell_name) {
            return Err(e);
        }
        let n = cell_name.depth();
        proof {
            assert(cell_name@.subrange(0, n as int) =~= cell_name@);
        }
        Ok(self.get_at(cell_name, 0))
    }

    fn broadcast(&mut self, graceful: bool) -> (r: Teardown)
        requires
            old(self).wf(),
        ensures
            final(self).wf(),
            final(self).entries().len() == old(self).entries().len(),
            forall|i: int| #![trigger final(self).entries()[i]]
                0 <= i < old(self).entries().len() ==> final(self).entries()[i] == (CellView {
                    name: old(self).entries()[i].name,
                    phase: Phase::Freed,
                    pid: 0,
                    daemon: None,
                    spec: old(self).entries()[i].spec,
                }),
            r.wf(),
            r@.graceful == graceful,
            r@.pos == 0 && !r@.stopped && r@.error is None,
            r@.names.len() == r@.pids.len(),
            drains_bottom_up(r@.names),
            all_distinct(r@.names),
            forall|q: Seq<Seq<char>>|
                #![trigger old(self).at(q)]
                old(self).at(q) is Some && old(self).at(q)->Some_0.phase == Phase::Allocated ==> exists|
                    k: int,
                |
                    0 <= k < r@.names.len() && #[trigger] r@.names[k] == q && r@.pids[k] == old(
                        self,
                    ).at(q)->Some_0.pid,
            forall|k: int|
                0 <= k < r@.names.len() ==> old(self).at(#[trigger] r@.names[k]) is Some && old(
                    self,
                ).at(r@.names[k])->Some_0.phase == Phase::Allocated && old(self).at(
                    r@.names[k],
                )->Some_0.pid == r@.pids[k],
    {
        let ghost old_self = *self;
        let ghost oe = old_self.entries();
        let mut out: Vec<Release> = Vec::new();
        let n = self.cells.len();
        let mut i: usize = 0;
        proof {
            assert(old_self.level(Seq::empty()) == Some(old_self.entries()));
            assert(Seq::<Seq<char>>::empty() + Seq::<Seq<char>>::empty() =~= Seq::<Seq<char>>::empty());
            assert(level_ok(old_self.entries(), Seq::empty()));
            assert forall|q: Seq<Seq<char>>|
                #![trigger old_self.at(q)]
                old_self.at(q) is Some && find_leaf(oe, q[0]) is Some implies find_leaf(oe, q[0])->Some_0
                    >= 0 by {
                lemma_find_leaf(oe, q[0]);
            };
        }
        while i < n
            invariant
                n == self.cells@.len() == old_self.cells@.len(),
                i <= n,
                old_self.wf(),
                oe == old_self.entries(),
                level_ok(oe, Seq::empty()),
                forall|j: int| i <= j < n ==> self.cells@[j] == old_self.cells@[j],
                forall|j: int| #![trigger self.cells@[j]]
                    0 <= j < i ==> self.cells@[j]@ == (CellView {
                        name: old_self.cells@[j]@.name,
                        phase: Phase::Freed,
                        pid: 0,
                        daemon: None,
                        spec: old_self.cells@[j]@.spec,
                    }),
                bottom_up(out@, 0),
                distinct_from(out@, 0),
                forall|q: Seq<Seq<char>>|
                    #![trigger old_self.at(q)]
                    old_self.at(q) is Some && old_self.at(q)->Some_0.phase == Phase::Allocated
                        && find_leaf(oe, q[0]) is Some && find_leaf(oe, q[0])->Some_0 < i ==> exists|
                        k: int,
                    |
                        0 <= k < out@.len() && (#[trigger] out@[k]).cell_name@ == q && out@[k].pid
                            == old_self.at(q)->Some_0.pid,
                forall|k: int|
                    0 <= k < out@.len() ==> old_self.at((#[trigger] out@[k]).cell_name@) is Some
                        && old_self.at(out@[k].cell_name@)->Some_0.phase == Phase::Allocated
                        && old_self.at(out@[k].cell_name@)->Some_0.pid == out@[k].pid,
                forall|k: int, j: int|
                    0 <= k < out@.len() && i <= j < n ==> (#[trigger] out@[k]).cell_name@.len() > 0
                        && out@[k].cell_name@[0] != (#[trigger] oe[j]).name.last(),
            decreases n - i,
        {
            let mut entry = self.cells.remove(i);
            let ghost before = out@;
            proof {
                assert(entry == old_self.cells@[i as int]);
                assert(oe[i as int] == entry@);
                lemma_find_leaf_is(oe, entry@.name.last(), Some(i as int));
                assert(Seq::<Seq<char>>::empty().push(entry@.name.last()) =~= entry@.name);
                if entry.state is Allocated {
                    old_self.lemma_child_wf(Seq::empty(), i as int, entry@.name.last());
                }
            }
            entry.collect(&mut out);
            proof {
                let leaf = entry@.name.last();
                assert forall|k: int| 0 <= k < before.len() implies out@[k] == before[k] by {
                    assert(out@.subrange(0, before.len() as int)[k] == out@[k]);
                };
                assert forall|l: int| before.len() <= l < out@.len() implies (#[trigger] out@[l]).cell_name@.len()
                    > 0 && out@[l].cell_name@[0] == leaf by {
                    let nl = out@[l].cell_name@;
                    assert(is_prefix(entry@.name, nl));
                    assert(nl.subrange(0, 1)[0] == nl[0]);
                };
                assert forall|k: int, l: int| 0 <= k < l < out@.len() implies !strictly_above(
                    (#[trigger] out@[k]).cell_name@,
                    (#[trigger] out@[l]).cell_name@,
                ) by {
                    if l < before.len() {
                        assert(out@[k] == before[k] && out@[l] == before[l]);
                    } else if k < before.len() {
                        let nk = out@[k].cell_name@;
                        let nl = out@[l].cell_name@;
                        assert(out@[k] == before[k]);
                        assert(nk[0] != oe[i as int].name.last());
                        if strictly_above(nk, nl) {
                            assert(nl.subrange(0, nk.len() as int)[0] == nl[0]);
                        }
                    }
                };
                assert forall|k: int, l: int|
                    0 <= k < out@.len() && 0 <= l < out@.len() && k != l implies (#[trigger] out@[k]).cell_name@
                    != (#[trigger] out@[l]).cell_name@ by {
                    if k < before.len() && l < before.len() {
                        assert(out@[k] == before[k] && out@[l] == before[l]);
                    } else if k < before.len() {
                        assert(out@[k] == before[k]);
                        assert(out@[k].cell_name@[0] != oe[i as int].name.last());
                    } else if l < before.len() {
                        assert(out@[l] == before[l]);
                        assert(out@[l].cell_name@[0] != oe[i as int].name.last());
                    }
                };
                assert forall|k: int| 0 <= k < out@.len() implies old_self.at(
                    (#[trigger] out@[k]).cell_name@,
                ) is Some && old_self.at(out@[k].cell_name@)->Some_0.phase == Phase::Allocated
                    && old_self.at(out@[k].cell_name@)->Some_0.pid == out@[k].pid by {
                    if k < before.len() {
                        assert(out@[k] == before[k]);
                    } else {
                        old_self.lemma_root_releases(i as int, out@[k].cell_name@, out@[k].pid);
                    }
                };
                assert forall|q: Seq<Seq<char>>|
                    #![trigger old_self.at(q)]
                    old_self.at(q) is Some && old_self.at(q)->Some_0.phase == Phase::Allocated
                        && find_leaf(oe, q[0]) is Some && find_leaf(oe, q[0])->Some_0 < i + 1 implies exists|
                        k: int,
                    |
                        0 <= k < out@.len() && (#[trigger] out@[k]).cell_name@ == q && out@[k].pid
                            == old_self.at(q)->Some_0.pid by {
                    let f = find_leaf(oe, q[0])->Some_0;
                    lemma_find_leaf(oe, q[0]);
                    if f < i {
                        let k0 = choose|k: int|
                            0 <= k < before.len() && (#[trigger] before[k]).cell_name@ == q
                                && before[k].pid == old_self.at(q)->Some_0.pid;
                        assert(out@[k0] == before[k0]);
                    } else {
                        assert(q.len() >= 1);
                        if q.len() == 1 {
                            assert(q.drop_last() =~= Seq::<Seq<char>>::empty());
                            assert(q.last() == q[0]);
                            assert(old_self.at(q) == Some(oe[i as int]));
                            assert(q =~= entry@.name);
                            assert(out@[out@.len() - 1].cell_name@ == q);
                        } else {
                            assert(q.drop_last()[0] == q[0]);
                            assert(old_self.level(q.drop_last()) is Some);
                            assert(entry.state is Allocated);
                            old_self.lemma_at_step(q, i as int);
                            assert(entry.sub(q.drop_first()) == old_self.at(q));
                            let k1 = choose|k: int|
                                before.len() <= k < out@.len() && (#[trigger] out@[k]).cell_name@
                                    == entry@.name + q.drop_first() && out@[k].pid == entry.sub(
                                    q.drop_first(),
                                )->Some_0.pid;
                            assert(entry@.name + q.drop_first() =~= q);
                        }
                    }
                };
                assert forall|k: int, j: int|
                    0 <= k < out@.len() && i + 1 <= j < n implies (#[trigger] out@[k]).cell_name@.len()
                    > 0 && out@[k].cell_name@[0] != (#[trigger] oe[j]).name.last() by {
                    if k < before.len() {
                        assert(out@[k] == before[k]);
                    } else {
                        assert(oe[i as int].name.last() != oe[j].name.last());
                    }
                };
            }
            entry.state = CellState::Freed;
            self.cells.insert(i, entry);
            i = i + 1;
        }
        let t = Teardown::new(out, graceful);
        proof {
            let e = self.entries();
            assert forall|j: int| 0 <= j < e.len() implies #[trigger] e[j] == (CellView {
                name: oe[j].name,
                phase: Phase::Freed,
                pid: 0,
                daemon: None,
                spec: oe[j].spec,
            }) by {
                assert(e[j] == self.cells@[j]@);
            };
            assert forall|q: Seq<Seq<char>>| #[trigger]
                self.level(q) is Some implies level_ok(self.level(q)->Some_0, Seq::empty() + q) by {
                assert(Seq::<Seq<char>>::empty() + q =~= q);
                if q.len() > 0 {
                    let f = find_leaf(e, q[0]);
                    lemma_find_leaf(e, q[0]);
                    if f is Some {
                        assert(self.cells@[f->Some_0]@.phase == Phase::Freed);
                    }
                } else {
                    assert forall|a: int, b: int|
                        0 <= a < e.len() && 0 <= b < e.len() && a != b implies (#[trigger] e[a]).name.last()
                        != (#[trigger] e[b]).name.last() by {
                        assert(e[a].name == oe[a].name && e[b].name == oe[b].name);
                    };
                }
            };
            assert forall|k: int, l: int| 0 <= k < l < t@.names.len() implies !strictly_above(
                #[trigger] t@.names[k],
                #[trigger] t@.names[l],
            ) by {
                assert(t@.names[k] == out@[k].cell_name@ && t@.names[l] == out@[l].cell_name@);
            };
            assert forall|k: int, l: int|
                0 <= k < t@.names.len() && 0 <= l < t@.names.len() && k != l implies #[trigger] t@.names[k]
                != #[trigger] t@.names[l] by {
                assert(t@.names[k] == out@[k].cell_name@ && t@.names[l] == out@[l].cell_name@);
            };
            assert forall|q: Seq<Seq<char>>|
                #![trigger old_self.at(q)]
                old_self.at(q) is Some && old_self.at(q)->Some_0.phase == Phase::Allocated implies exists|
                    k: int,
                |
                    0 <= k < t@.names.len() && #[trigger] t@.names[k] == q && t@.pids[k] == old_self.at(
                        q,
                    )->Some_0.pid by {
                assert(q.len() >= 1);
                assert(q.drop_last().len() == 0 ==> q.drop_last() =~= Seq::<Seq<char>>::empty());
                if q.len() > 1 {
                    assert(q.drop_last()[0] == q[0]);
                }
                lemma_find_leaf(oe, q[0]);
                let k0 = choose|k: int|
                    0 <= k < out@.len() && (#[trigger] out@[k]).cell_name@ == q && out@[k].pid
                        == old_self.at(q)->Some_0.pid;
                assert(t@.names[k0] == out@[k0].cell_name@ && t@.pids[k0] == out@[k0].pid);
            };
            assert forall|k: int| 0 <= k < t@.names.len() implies old_self.at(#[trigger] t@.names[k])
                is Some && old_self.at(t@.names[k])->Some_0.phase == Phase::Allocated && old_self.at(
                t@.names[k],
            )->Some_0.pid == t@.pids[k] by {
                assert(t@.names[k] == out@[k].cell_name@ && t@.pids[k] == out@[k].pid);
            };
        }
        t
    }

    /// A release owed by the entry at `i` names a cell of this cache, with
    /// its own pid.
    proof fn lemma_root_releases(self, i: int, name: Seq<Seq<char>>, pid: i32)
        requires
            level_ok(self.entries(), Seq::empty()),
            0 <= i < self.cells@.len(),
            find_leaf(self.entries(), self.cells@[i]@.name.last()) == Some(i),
            self.cells@[i].releases_own(name, pid),
        ensures
            self.at(name) is Some,
            self.at(name)->Some_0.phase == Phase::Allocated,
            self.at(name)->Some_0.pid == pid,
    {
        let child = self.cells@[i];
        let leaf = child@.name.last();
        assert(self.entries()[i] == child@);
        assert(child@.name =~= seq![leaf]);
        let p1 = seq![leaf];
        assert(p1.drop_last() =~= Seq::<Seq<char>>::empty());
        assert(self.level(Seq::empty()) == Some(self.entries()));
        if child@.phase == Phase::Allocated && name == child@.name && pid == child@.pid {
            assert(self.at(p1) == Some(child@));
        } else {
            let q = choose|q: Seq<Seq<char>>|
                #![trigger child.sub(q)]
                q.len() >= 1 && child.sub(q) is Some && child.sub(q)->Some_0.phase == Phase::Allocated
                    && name == child@.name + q && pid == child.sub(q)->Some_0.pid;
            let p = p1 + q;
            assert(p[0] == leaf);
            assert(p.drop_first() =~= q);
            self.lemma_at_step(p, i);
            assert(p =~= name);
        }
    }

    /// Drives every cell of this level to `Freed`, gracefully; the entries
    /// stay. The returned teardown releases all their subtrees. A failure of
    /// one cell does not halt the others.
    pub fn broadcast_free(&mut self) -> (r: Teardown)
        requires
            old(self).wf(),
        ensures
            final(self).wf(),
            final(self).entries().len() == old(self).entries().len(),
            forall|i: int| #![trigger final(self).entries()[i]]
                0 <= i < old(self).entries().len() ==> final(self).entries()[i] == (CellView {
                    name: old(self).entries()[i].name,
                    phase: Phase::Freed,
                    pid: 0,
                    daemon: None,
                    spec: old(self).entries()[i].spec,
                }),
            r.wf(),
            r@.graceful,
            r@.pos == 0 && !r@.stopped && r@.error is None,
            r@.names.len() == r@.pids.len(),
            drains_bottom_up(r@.names),
            all_distinct(r@.names),
            forall|q: Seq<Seq<char>>|
                #![trigger old(self).at(q)]
                old(self).at(q) is Some && old(self).at(q)->Some_0.phase == Phase::Allocated ==> exists|
                    k: int,
                |
                    0 <= k < r@.names.len() && #[trigger] r@.names[k] == q && r@.pids[k] == old(
                        self,
                    ).at(q)->Some_0.pid,
            forall|k: int|
                0 <= k < r@.names.len() ==> old(self).at(#[trigger] r@.names[k]) is Some && old(
                    self,
                ).at(r@.names[k])->Some_0.phase == Phase::Allocated && old(self).at(
                    r@.names[k],
                )->Some_0.pid == r@.pids[k],
    {
        self.broadcast(true)
    }

    /// As `broadcast_free`, but every nested daemon is killed; this is what
    /// is owed to the cells of a cache that goes out of scope.
    pub fn broadcast_kill(&mut self) -> (r: Teardown)
        requires
            old(self).wf(),
        ensures
            final(self).wf(),
            final(self).entries().len() == old(self).entries().len(),
            forall|i: int| #![trigger final(self).entries()[i]]
                0 <= i < old(self).entries().len() ==> final(self).entries()[i] == (CellView {
                    name: old(self).entries()[i].name,
                    phase: Phase::Freed,
                    pid: 0,
                    daemon: None,
                    spec: old(self).entries()[i].spec,
                }),
            r.wf(),
            !r@.graceful,
            r@.pos == 0 && !r@.stopped && r@.error is None,
            r@.names.len() == r@.pids.len(),
            drains_bottom_up(r@.names),
            all_distinct(r@.names),
            forall|q: Seq<Seq<char>>|
                #![trigger old(self).at(q)]
                old(self).at(q) is Some && old(self).at(q)->Some_0.phase == Phase::Allocated ==> exists|
                    k: int,
                |
                    0 <= k < r@.names.len() && #[trigger] r@.names[k] == q && r@.pids[k] == old(
                        self,
                    ).at(q)->Some_0.pid,
            forall|k: int|
                0 <= k < r@.names.len() ==> old(self).at(#[trigger] r@.names[k]) is Some && old(
                    self,
                ).at(r@.names[k])->Some_0.phase == Phase::Allocated && old(self).at(
                    r@.names[k],
                )->Some_0.pid == r@.pids[k],
    {
        self.broadcast(false)
    }
}

impl Cells {
    /// Nothing lives at or below a name whose allocation is vacant.
    pub proof fn lemma_vacant_below(self, p: Seq<Seq<char>>, depth: int, q: Seq<Seq<char>>)
        requires
            p.len() >= 1,
            self.route(p, depth) is Vacant,
            is_prefix(p, q),
        ensures
            self.level(q) is None,
        decreases p.len(),
    {
        assert(q.subrange(0, p.len() as int)[0] == q[0]);
        if p.len() > 1 {
            let i = find_leaf(self.entries(), p[0])->Some_0;
            lemma_find_leaf(self.entries(), p[0]);
            lemma_paths(p, q);
            let children = self.cells@[i].state->children;
            children.lemma_vacant_below(p.drop_first(), depth + 1, q.drop_first());
        }
    }

    /// A name at which a cell lives is occupied.
    pub proof fn lemma_occupied(self, p: Seq<Seq<char>>, depth: int)
        requires
            p.len() >= 1,
            self.at(p) is Some,
        ensures
            self.route(p, depth) is Occupied,
        decreases p.len(),
    {
        if p.len() == 1 {
            assert(p.drop_last() =~= Seq::<Seq<char>>::empty());
            assert(p.last() == p[0]);
        } else {
            assert(p.drop_last()[0] == p[0]);
            let i = find_leaf(self.entries(), p[0])->Some_0;
            lemma_find_leaf(self.entries(), p[0]);
            self.lemma_at_step(p, i);
            let children = self.cells@[i].state->children;
            children.lemma_occupied(p.drop_first(), depth + 1);
        }
    }
}

/// Allocating a cell and then freeing it gives back the cache as it was:
/// every level of the tree is as before, and no entry of the name remains.
/// `c1` is the cache after the allocation, `c2` after the free.
pub proof fn law_allocate_then_free(
    c0: Cells,
    c1: Cells,
    c2: Cells,
    name: Seq<Seq<char>>,
    daemon: NestedAuraed,
    spec: CellSpec,
)
    requires
        c0.wf(),
        name.len() >= 1,
        c0.route(name, 0) is Vacant,
        forall|q: Seq<Seq<char>>| #[trigger] c1.level(q) == c0.level_after_allocate(
            name,
            daemon,
            spec,
            q,
        ),
        forall|q: Seq<Seq<char>>| #[trigger] c2.level(q) == c1.level_after_remove(name, q),
    ensures
        c1.route(name, 0) is Occupied,
        forall|q: Seq<Seq<char>>| #[trigger] c2.level(q) == c0.level(q),
        c2.at(name) is None,
{
    c0.lemma_vacant(name, 0);
    let parent = name.drop_last();
    let l0 = c0.level(parent)->Some_0;
    let v = CellView {
        name: name,
        phase: Phase::Allocated,
        pid: daemon.pid,
        daemon: Some(daemon),
        spec: spec,
    };
    assert(name.last() == v.name.last());
    lemma_find_push(l0, v, name.last());
    assert(c1.level(parent) == Some(l0.push(v)));
    assert(c1.at(name) is Some);
    c1.lemma_occupied(name, 0);
    assert forall|q: Seq<Seq<char>>| #[trigger] c2.level(q) == c0.level(q) by {
        if q == parent {
            assert(!is_prefix(name, q));
            assert(l0.push(v).remove(l0.len() as int) =~= l0);
        } else if is_prefix(name, q) {
            c0.lemma_vacant_below(name, 0, q);
        } else {
            assert(q != name) by {
                assert(name.subrange(0, name.len() as int) =~= name);
            };
        }
    };
    assert(c2.level(parent) == Some(l0));
    lemma_find_leaf(l0, name.last());
}

/// Allocating `a/b` where no `a` exists fails with `CellNotFound` naming
/// `a`.
pub proof fn law_missing_parent(c: Cells, name: Seq<Seq<char>>)
    requires
        name.len() >= 2,
        c.at(name.subrange(0, 1)) is None,
    ensures
        c.route(name, 0) == Route::NotFound(1),
{
    let a = name.subrange(0, 1);
    assert(a.drop_last() =~= Seq::<Seq<char>>::empty());
    assert(a.last() == name[0]);
    lemma_find_leaf(c.entries(), name[0]);
}

/// Allocating `a/b` where `a` exists but is not allocated (it is freed, or
/// was never allocated) fails with `CellNotAllocated` naming `a`.
pub proof fn law_parent_not_allocated(c: Cells, name: Seq<Seq<char>>)
    requires
        name.len() >= 2,
        c.at(name.subrange(0, 1)) is Some,
        c.at(name.subrange(0, 1))->Some_0.phase != Phase::Allocated,
    ensures
        c.route(name, 0) == Route::NotAllocated(1),
{
    let a = name.subrange(0, 1);
    assert(a.drop_last() =~= Seq::<Seq<char>>::empty());
    assert(a.last() == name[0]);
    lemma_find_leaf(c.entries(), name[0]);
}

/// Allocating a name at which a cell already lives fails with
/// `CellExists`.
pub proof fn law_name_taken(c: Cells, name: Seq<Seq<char>>)
    requires
        name.len() >= 1,
        c.at(name) is Some,
    ensures
        c.route(name, 0) is Occupied,
{
    c.lemma_occupied(name, 0);
}

/// Freeing a cell takes its whole subtree out of the cache: after freeing
/// `a`, no descendant such as `a/b` can be reached.
pub proof fn law_free_takes_subtree(c1: Cells, c2: Cells, name: Seq<Seq<char>>, q: Seq<Seq<char>>)
    requires
        name.len() >= 1,
        forall|r: Seq<Seq<char>>| #[trigger] c2.level(r) == c1.level_after_remove(name, r),
        is_prefix(name, q),
        q.len() > name.len(),
    ensures
        c2.at(q) is None,
{
    let d = q.drop_last();
    assert(is_prefix(name, d)) by {
        assert(d.subrange(0, name.len() as int) =~= q.subrange(0, name.len() as int));
    };
    assert(d != name.drop_last());
    assert(c2.level(d) is None);
}

/// One node of the listing of the tree: a cell's name and spec, and the
/// nodes of its children.
#[derive(Debug)]
pub struct GraphNode {
    pub cell_name: CellName,
    pub spec: CellSpec,
    pub children: Vec<GraphNode>,
}

/// The nodes of a listing, seen as cells by name, for lookups by leaf.
pub open spec fn node_views(g: Seq<GraphNode>) -> Seq<CellView> {
    g.map_values(
        |n: GraphNode|
            CellView { name: n.cell_name@, phase: Phase::Unallocated, pid: 0, daemon: None, spec: n.spec },
    )
}

/// The nodes reached by following `path` through a listing, by leaf.
pub open spec fn graph_level(g: Seq<GraphNode>, path: Seq<Seq<char>>) -> Option<Seq<GraphNode>>
    decreases path.len(),
{
    if path.len() == 0 {
        Some(g)
    } else {
        match find_leaf(node_views(g), path[0]) {
            None => None,
            Some(i) => graph_level(g[i].children@, path.drop_first()),
        }
    }
}

/// The nodes list the entries of one level: one node per entry, in order,
/// with its name and spec, and no children under an entry that is not
/// allocated.
pub open spec fn lists(g: Seq<GraphNode>, entries: Seq<CellView>) -> bool {
    &&& g.len() == entries.len()
    &&& forall|i: int|
        0 <= i < g.len() ==> (#[trigger] g[i]).cell_name@ == entries[i].name && g[i].spec.same_as(
            entries[i].spec,
        ) && (entries[i].phase != Phase::Allocated ==> g[i].children@.len() == 0)
}

impl Cells {
    /// Lists the tree depth-first. Every level of the tree is listed, at the
    /// same path, by one node per cell with its name and spec; a cell that
    /// is not allocated has no child nodes.
    pub fn cell_graph(&self) -> (r: Vec<GraphNode>)
        ensures
            forall|q: Seq<Seq<char>>| #[trigger]
                self.level(q) is Some ==> graph_level(r@, q) is Some && lists(
                    graph_level(r@, q)->Some_0,
                    self.level(q)->Some_0,
                ),
        decreases self,
    {
        let mut out: Vec<GraphNode> = Vec::new();
        let mut i: usize = 0;
        while i < self.cells.len()
            invariant
                i <= self.cells@.len(),
                out@.len() == i,
                forall|j: int|
                    0 <= j < i ==> (#[trigger] out@[j]).cell_name@ == self.entries()[j].name
                        && out@[j].spec.same_as(self.entries()[j].spec) && (self.entries()[j].phase
                        != Phase::Allocated ==> out@[j].children@.len() == 0),
                forall|j: int, q: Seq<Seq<char>>|
                    #![trigger out@[j], self.cells@[j].state->children.level(q)]
                    0 <= j < i && self.cells@[j].state is Allocated
                        && self.cells@[j].state->children.level(q) is Some ==> graph_level(
                        out@[j].children@,
                        q,
                    ) is Some && lists(
                        graph_level(out@[j].children@, q)->Some_0,
                        self.cells@[j].state->children.level(q)->Some_0,
                    ),
            decreases self.cells@.len() - i,
        {
            let cell = &self.cells[i];
            assert(self.entries()[i as int] == cell@);
            let children = match &cell.state {
                CellState::Allocated { children, .. } => {
                    proof {
                        assert(decreases_to!(self => self.cells));
                        vstd::std_specs::vec::axiom_vec_index_decreases(self.cells, i as int);
                        assert(decreases_to!(cell => cell.state));
                    }
                    children.cell_graph()
                },
                _ => Vec::new(),
            };
            let ghost before = out@;
            out.push(GraphNode { cell_name: cell.cell_name.clone(), spec: cell.spec.clone(), children });
            proof {
                assert forall|j: int| 0 <= j < i implies out@[j] == before[j] by {};
            }
            i = i + 1;
        }
        proof {
            let e = self.entries();
            assert(node_views(out@).len() == e.len());
            assert forall|q: Seq<Seq<char>>| #[trigger]
                self.level(q) is Some implies graph_level(out@, q) is Some && lists(
                    graph_level(out@, q)->Some_0,
                    self.level(q)->Some_0,
                ) by {
                if q.len() > 0 {
                    let nv = node_views(out@);
                    assert forall|j: int| 0 <= j < nv.len() implies (#[trigger] nv[j]).name == e[j].name by {
                        assert(nv[j].name == out@[j].cell_name@);
                    };
                    lemma_find_leaf(e, q[0]);
                    let f = find_leaf(e, q[0])->Some_0;
                    lemma_find_leaf_is(nv, q[0], Some(f));
                    assert(self.cells@[f].state is Allocated);
                    assert(self.level(q) == self.cells@[f].state->children.level(q.drop_first()));
                    assert(graph_level(out@, q) == graph_level(out@[f].children@, q.drop_first()));
                }
            };
        }
        out
    }
}

impl Cells {
    /// What a child owes in releases, its parent owes too.
    proof fn lemma_child_releases(self, parent: &Cell, i: int, name: Seq<Seq<char>>, pid: i32)
        requires
            parent.state is Allocated,
            parent.state->children == self,
            level_ok(self.entries(), parent@.name),
            0 <= i < self.cells@.len(),
            find_leaf(self.entries(), self.cells@[i]@.name.last()) == Some(i),
            self.cells@[i].releases_own(name, pid),
        ensures
            parent.releases_own(name, pid),
    {
        let child = self.cells@[i];
        let leaf = child@.name.last();
        assert(self.entries()[i] == child@);
        assert(child@.name =~= parent@.name.push(leaf));
        let p1 = seq![leaf];
        assert(p1.drop_last() =~= Seq::<Seq<char>>::empty());
        assert(self.level(Seq::empty()) == Some(self.entries()));
        if child@.phase == Phase::Allocated && name == child@.name && pid == child@.pid {
            assert(parent.sub(p1) == Some(child@));
            assert(parent@.name + p1 =~= name);
        } else {
            let q = choose|q: Seq<Seq<char>>|
                #![trigger child.sub(q)]
                q.len() >= 1 && child.sub(q) is Some && child.sub(q)->Some_0.phase == Phase::Allocated
                    && name == child@.name + q && pid == child.sub(q)->Some_0.pid;
            let p = p1 + q;
            assert(p[0] == leaf);
            assert(p.drop_first() =~= q);
            self.lemma_at_step(p, i);
            assert(parent.sub(p) == child.sub(q));
            assert(parent@.name + p =~= child@.name + q);
        }
    }
}

impl Launch {
    /// What is owed after an aborted allocation of `cell_name`: the daemon
    /// that started but could not be attached is killed and the cgroup
    /// removed. Nothing is owed after any other launch outcome.
    pub fn abort_cleanup(&self, cell_name: &CellName) -> (r: Option<Teardown>)
        ensures
            r is Some <==> self is AttachFailed,
            r matches Some(t) ==> {
                &&& t.wf()
                &&& !t@.graceful
                &&& t@.pos == 0 && !t@.stopped && t@.error is None
                &&& t@.names == seq![cell_name@]
                &&& t@.pids == seq![self->AttachFailed_daemon.pid]
            },
    {
        match self {
            Launch::AttachFailed { daemon, .. } => {
                let mut releases: Vec<Release> = Vec::new();
                releases.push(Release { cell_name: cell_name.clone(), pid: daemon.pid });
                let t = Teardown::new(releases, false);
                proof {
                    assert(t@.names =~= seq![cell_name@]);
                    assert(t@.pids =~= seq![daemon.pid]);
                }
                Some(t)
            },
            _ => None,
        }
    }
}

impl Cells {
    /// Tells, without changing anything, whether allocating `cell_name`
    /// would find its place: the errors are those of `allocate` before any
    /// launch is looked at.
    pub fn check_allocate(&self, cell_name: &CellName) -> (r: Result<(), CellsError>)
        ensures
            match self.route(cell_name@, 0) {
                Route::Vacant => r is Ok,
                Route::Occupied => r is Err && r->Err_0.is(
                    crate::error::ErrorKind::CellExists,
                    cell_name@,
                ),
                Route::NotFound(k) => r is Err && r->Err_0.is(
                    crate::error::ErrorKind::CellNotFound,
                    cell_name@.subrange(0, k),
                ),
                Route::NotAllocated(k) => r is Err && r->Err_0.is(
                    crate::error::ErrorKind::CellNotAllocated,
                    cell_name@.subrange(0, k),
                ),
            },
    {
        let n = cell_name.depth();
        proof {
            assert(cell_name@.subrange(0, n as int) =~= cell_name@);
        }
        self.check_at(cell_name, 0)
    }
}

} // verus!
