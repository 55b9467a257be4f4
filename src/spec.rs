use vstd::prelude::*;
use crate::validation::{Allocation, ValidationError, ValidationReason};

verus! {

/// The smallest accepted `cpu.weight`.
pub const CPU_WEIGHT_MIN: u64 = 1;

/// The largest accepted `cpu.weight`.
pub const CPU_WEIGHT_MAX: u64 = 10000;

/// A CPU bandwidth limit: `quota` microseconds in each `period`.
#[derive(Debug)]
pub struct CpuMax {
    pub quota: Allocation,
    pub period: Allocation,
}

/// A memory limit in bytes, or no limit at all.
#[derive(Debug)]
pub enum MemoryLimit {
    Bytes(Allocation),
    Max,
}

/// Resource limits of one cgroup; an absent field inherits from the parent.
#[derive(Debug)]
pub struct CgroupSpec {
    pub cpu_weight: Option<u64>,
    pub cpu_max: Option<CpuMax>,
    pub memory_max: Option<MemoryLimit>,
    pub memory_low: Option<MemoryLimit>,
    pub cpuset_cpus: Option<String>,
    pub cpuset_mems: Option<String>,
}

/// One user or group id mapping of a new user namespace.
#[derive(Debug, Clone, Copy, PartialEq, Eq)]
pub struct IdMap {
    pub inside: u32,
    pub outside: u32,
    pub count: u32,
}

/// Which namespaces the nested daemon gets afresh.
#[derive(Debug)]
pub struct IsolationControls {
    pub new_pid_ns: bool,
    pub new_net_ns: bool,
    pub new_mount_ns: bool,
    pub new_uts_ns: bool,
    pub new_ipc_ns: bool,
    pub new_user_ns: bool,
    pub uid_map: Vec<IdMap>,
    pub gid_map: Vec<IdMap>,
}

/// The declarative, immutable configuration of a cell.
#[derive(Debug)]
pub struct CellSpec {
    pub cgroup_spec: CgroupSpec,
    pub iso_ctl: IsolationControls,
}

impl CgroupSpec {
    /// A spec with every field absent.
    pub fn inherit() -> (r: Self)
        ensures
            r.cpu_weight is None,
            r.cpu_max is None,
            r.memory_max is None,
            r.memory_low is None,
            r.cpuset_cpus is None,
            r.cpuset_mems is None,
    {
        CgroupSpec {
            cpu_weight: None,
            cpu_max: None,
            memory_max: None,
            memory_low: None,
            cpuset_cpus: None,
            cpuset_mems: None,
        }
    }

    /// An absent weight is accepted as absent; a present one must lie in
    /// `1..=10000`.
    pub fn validate_cpu_weight(
        input: Option<u64>,
        field_name: &str,
        parent_name: Option<&str>,
    ) -> (r: Result<Option<u64>, ValidationError>)
        ensures
            match input {
                None => r == Ok::<Option<u64>, ValidationError>(None),
                Some(w) => if CPU_WEIGHT_MIN <= w <= CPU_WEIGHT_MAX {
                    r == Ok::<Option<u64>, ValidationError>(Some(w))
                } else {
                    r is Err && r->Err_0.names(
                        field_name,
                        parent_name,
                        ValidationReason::OutOfRange { low: CPU_WEIGHT_MIN, high: CPU_WEIGHT_MAX },
                    )
                },
            },
    {
        match input {
            None => Ok(None),
            Some(w) => {
                if CPU_WEIGHT_MIN <= w && w <= CPU_WEIGHT_MAX {
                    Ok(Some(w))
                } else {
                    Err(
                        ValidationError::new(
                            field_name,
                            parent_name,
                            ValidationReason::OutOfRange { low: CPU_WEIGHT_MIN, high: CPU_WEIGHT_MAX },
                        ),
                    )
                }
            },
        }
    }
}

impl IsolationControls {
    /// No new namespace at all.
    pub fn shared() -> (r: Self)
        ensures
            !r.new_pid_ns && !r.new_net_ns && !r.new_mount_ns && !r.new_uts_ns && !r.new_ipc_ns
                && !r.new_user_ns,
            r.uid_map@.len() == 0 && r.gid_map@.len() == 0,
    {
        IsolationControls {
            new_pid_ns: false,
            new_net_ns: false,
            new_mount_ns: false,
            new_uts_ns: false,
            new_ipc_ns: false,
            new_user_ns: false,
            uid_map: Vec::new(),
            gid_map: Vec::new(),
        }
    }
}

/// The decimal digit `d`.
pub open spec fn digit_char(d: int) -> char {
    if d == 0 { '0' }
    else if d == 1 { '1' }
    else if d == 2 { '2' }
    else if d == 3 { '3' }
    else if d == 4 { '4' }
    else if d == 5 { '5' }
    else if d == 6 { '6' }
    else if d == 7 { '7' }
    else if d == 8 { '8' }
    else { '9' }
}

/// `n` written in decimal, without leading zeros.
pub open spec fn decimal(n: nat) -> Seq<char>
    decreases n,
{
    if n < 10 {
        seq![digit_char(n as int)]
    } else {
        decimal(n / 10) + seq![digit_char((n % 10) as int)]
    }
}

fn digit_str(d: u64) -> (r: &'static str)
    requires
        d < 10,
    ensures
        r@ == seq![digit_char(d as int)],
{
    proof {
        reveal_strlit("0");
        reveal_strlit("1");
        reveal_strlit("2");
        reveal_strlit("3");
        reveal_strlit("4");
        reveal_strlit("5");
        reveal_strlit("6");
        reveal_strlit("7");
        reveal_strlit("8");
        reveal_strlit("9");
    }
    if d == 0 { "0" }
    else if d == 1 { "1" }
    else if d == 2 { "2" }
    else if d == 3 { "3" }
    else if d == 4 { "4" }
    else if d == 5 { "5" }
    else if d == 6 { "6" }
    else if d == 7 { "7" }
    else if d == 8 { "8" }
    else { "9" }
}

/// Writes `n` in decimal.
pub fn decimal_string(n: u64) -> (r: String)
    ensures
        r@ == decimal(n as nat),
    decreases n,
{
    if n < 10 {
        String::from_str(digit_str(n))
    } else {
        let mut s = decimal_string(n / 10);
        s.append(digit_str(n % 10));
        s
    }
}

/// One write to a cgroup control file.
#[derive(Debug, Clone)]
pub struct ControlWrite {
    pub file: String,
    pub value: String,
}

pub open spec fn limit_text(m: MemoryLimit) -> Seq<char> {
    match m {
        MemoryLimit::Bytes(a) => decimal(a.value() as nat),
        MemoryLimit::Max => "max"@,
    }
}

/// The write a field asks for, if it is present.
pub open spec fn entry_if<T>(o: Option<T>, file: Seq<char>, text: spec_fn(T) -> Seq<char>) -> Seq<
    (Seq<char>, Seq<char>),
> {
    match o {
        Some(v) => seq![(file, text(v))],
        None => Seq::empty(),
    }
}

pub open spec fn write_views(v: Seq<ControlWrite>) -> Seq<(Seq<char>, Seq<char>)> {
    v.map_values(|w: ControlWrite| (w.file@, w.value@))
}

impl CgroupSpec {
    /// The control-file writes this spec asks for, in the order
    /// `cpu.weight`, `cpu.max`, `memory.max`, `memory.low`, `cpuset.cpus`,
    /// `cpuset.mems`; an absent field is not written.
    pub open spec fn writes(self) -> Seq<(Seq<char>, Seq<char>)> {
        entry_if(self.cpu_weight, "cpu.weight"@, |w: u64| decimal(w as nat)) + entry_if(
            self.cpu_max,
            "cpu.max"@,
            |c: CpuMax| decimal(c.quota.value() as nat) + seq![' '] + decimal(c.period.value() as nat),
        ) + entry_if(self.memory_max, "memory.max"@, |m: MemoryLimit| limit_text(m)) + entry_if(
            self.memory_low,
            "memory.low"@,
            |m: MemoryLimit| limit_text(m),
        ) + entry_if(self.cpuset_cpus, "cpuset.cpus"@, |s: String| s@) + entry_if(
            self.cpuset_mems,
            "cpuset.mems"@,
            |s: String| s@,
        )
    }

    /// The writes that set this spec up in a freshly created cgroup.
    pub fn control_writes(&self) -> (r: Vec<ControlWrite>)
        ensures
            write_views(r@) == self.writes(),
    {
        let mut out: Vec<ControlWrite> = Vec::new();
        let ghost mut acc: Seq<(Seq<char>, Seq<char>)> = Seq::empty();
        proof {
            assert(write_views(out@) =~= acc);
        }
        if let Some(w) = self.cpu_weight {
            out.push(ControlWrite { file: String::from_str("cpu.weight"), value: decimal_string(w) });
        }
        proof {
            acc = entry_if(self.cpu_weight, "cpu.weight"@, |w: u64| decimal(w as nat));
            assert(write_views(out@) =~= acc);
        }
        if let Some(c) = &self.cpu_max {
            let q = c.quota.into_inner();
            let p = c.period.into_inner();
            let mut v = decimal_string(q as u64);
            v.append(" ");
            v.append(decimal_string(p as u64).as_str());
            proof {
                reveal_strlit(" ");
                assert(v@ =~= decimal(c.quota.value() as nat) + seq![' '] + decimal(
                    c.period.value() as nat,
                ));
            }
            out.push(ControlWrite { file: String::from_str("cpu.max"), value: v });
        }
        proof {
            acc = acc + entry_if(
                self.cpu_max,
                "cpu.max"@,
                |c: CpuMax| decimal(c.quota.value() as nat) + seq![' '] + decimal(c.period.value() as nat),
            );
            assert(write_views(out@) =~= acc);
        }
        if let Some(m) = &self.memory_max {
            out.push(ControlWrite { file: String::from_str("memory.max"), value: limit_string(m) });
        }
        proof {
            acc = acc + entry_if(self.memory_max, "memory.max"@, |m: MemoryLimit| limit_text(m));
            assert(write_views(out@) =~= acc);
        }
        if let Some(m) = &self.memory_low {
            out.push(ControlWrite { file: String::from_str("memory.low"), value: limit_string(m) });
        }
        proof {
            acc = acc + entry_if(self.memory_low, "memory.low"@, |m: MemoryLimit| limit_text(m));
            assert(write_views(out@) =~= acc);
        }
        if let Some(s) = &self.cpuset_cpus {
            out.push(ControlWrite { file: String::from_str("cpuset.cpus"), value: s.clone() });
        }
        proof {
            acc = acc + entry_if(self.cpuset_cpus, "cpuset.cpus"@, |s: String| s@);
            assert(write_views(out@) =~= acc);
        }
        if let Some(s) = &self.cpuset_mems {
            out.push(ControlWrite { file: String::from_str("cpuset.mems"), value: s.clone() });
        }
        proof {
            acc = acc + entry_if(self.cpuset_mems, "cpuset.mems"@, |s: String| s@);
            assert(write_views(out@) =~= acc);
        }
        out
    }
}

fn limit_string(m: &MemoryLimit) -> (r: String)
    ensures
        r@ == limit_text(*m),
{
    match m {
        MemoryLimit::Bytes(a) => decimal_string(a.into_inner() as u64),
        MemoryLimit::Max => String::from_str("max"),
    }
}

fn clone_opt_string(o: &Option<String>) -> (r: Option<String>)
    ensures
        r == *o,
{
    match o {
        Some(s) => Some(s.clone()),
        None => None,
    }
}

fn clone_id_maps(v: &Vec<IdMap>) -> (r: Vec<IdMap>)
    ensures
        r@ == v@,
{
    let mut out: Vec<IdMap> = Vec::new();
    let mut i: usize = 0;
    while i < v.len()
        invariant
            i <= v@.len(),
            out@ == v@.subrange(0, i as int),
        decreases v@.len() - i,
    {
        out.push(v[i]);
        proof {
            assert(v@.subrange(0, i + 1) =~= v@.subrange(0, i as int).push(v@[i as int]));
        }
        i = i + 1;
    }
    assert(v@.subrange(0, v@.len() as int) =~= v@);
    out
}

impl Clone for CpuMax {
    fn clone(&self) -> (r: Self)
        ensures
            r == *self,
    {
        CpuMax { quota: self.quota, period: self.period }
    }
}

impl Clone for MemoryLimit {
    fn clone(&self) -> (r: Self)
        ensures
            r == *self,
    {
        match self {
            MemoryLimit::Bytes(a) => MemoryLimit::Bytes(*a),
            MemoryLimit::Max => MemoryLimit::Max,
        }
    }
}

impl Clone for CgroupSpec {
    fn clone(&self) -> (r: Self)
        ensures
            r == *self,
    {
        CgroupSpec {
            cpu_weight: self.cpu_weight,
            cpu_max: match &self.cpu_max {
                Some(c) => Some(c.clone()),
                None => None,
            },
            memory_max: match &self.memory_max {
                Some(m) => Some(m.clone()),
                None => None,
            },
            memory_low: match &self.memory_low {
                Some(m) => Some(m.clone()),
                None => None,
            },
            cpuset_cpus: clone_opt_string(&self.cpuset_cpus),
            cpuset_mems: clone_opt_string(&self.cpuset_mems),
        }
    }
}

impl IsolationControls {
    /// The same controls: the same flags and the same id maps.
    pub open spec fn same_as(self, o: IsolationControls) -> bool {
        &&& self.new_pid_ns == o.new_pid_ns
        &&& self.new_net_ns == o.new_net_ns
        &&& self.new_mount_ns == o.new_mount_ns
        &&& self.new_uts_ns == o.new_uts_ns
        &&& self.new_ipc_ns == o.new_ipc_ns
        &&& self.new_user_ns == o.new_user_ns
        &&& self.uid_map@ == o.uid_map@
        &&& self.gid_map@ == o.gid_map@
    }
}

impl CellSpec {
    /// The same spec: equal resource limits and the same isolation controls.
    pub open spec fn same_as(self, o: CellSpec) -> bool {
        self.cgroup_spec == o.cgroup_spec && self.iso_ctl.same_as(o.iso_ctl)
    }
}

impl Clone for IsolationControls {
    fn clone(&self) -> (r: Self)
        ensures
            r.same_as(*self),
    {
        let uid_map = clone_id_maps(&self.uid_map);
        let gid_map = clone_id_maps(&self.gid_map);
        let r = IsolationControls {
            new_pid_ns: self.new_pid_ns,
            new_net_ns: self.new_net_ns,
            new_mount_ns: self.new_mount_ns,
            new_uts_ns: self.new_uts_ns,
            new_ipc_ns: self.new_ipc_ns,
            new_user_ns: self.new_user_ns,
            uid_map,
            gid_map,
        };
        r
    }
}

impl Clone for CellSpec {
    fn clone(&self) -> (r: Self)
        ensures
            r.same_as(*self),
    {
        CellSpec { cgroup_spec: self.cgroup_spec.clone(), iso_ctl: self.iso_ctl.clone() }
    }
}

} // verus!
