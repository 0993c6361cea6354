//! Per-applet sandbox policies (the system-call classes an applet needs and
//! the capabilities it keeps) and the decisions taken when a policy is
//! applied on a given backend.

use vstd::prelude::*;
use crate::text::{str_eq, concat_str};

verus! {

broadcast use vstd::std_specs::vec::group_vec_axioms, vstd::seq_lib::group_seq_properties;

#[derive(Debug, Clone, Copy, PartialEq, Eq, Structural)]
pub enum SandboxMode {
    Strict,
    Permissive,
    Off,
}

#[derive(Debug, Clone, Copy, PartialEq, Eq, Structural, PartialOrd, Ord)]
pub enum Capability {
    SysAdmin,
    NetAdmin,
    NetRaw,
    NetBindService,
    Chown,
    DacOverride,
    Setuid,
    Setgid,
    Fowner,
    Kill,
}

#[derive(Debug, Clone, Copy, PartialEq, Eq, Structural, PartialOrd, Ord)]
pub enum SyscallClass {
    ReadOnlyFs,
    WriteFs,
    Metadata,
    Memory,
    Process,
    Signal,
    Network,
    Dns,
    Terminal,
    Mount,
    Time,
    Random,
}

/// What an applet may do under the sandbox. The classes and capabilities are
/// kept as sets: in declaration order, each at most once.
#[derive(Debug, Clone, PartialEq, Eq)]
pub struct SandboxPolicy {
    pub applet: String,
    pub syscall_classes: Vec<SyscallClass>,
    pub capabilities_to_keep: Vec<Capability>,
    pub supports_strict: bool,
}

#[derive(Debug, Clone, PartialEq, Eq)]
pub struct SandboxReport {
    pub applet: String,
    pub mode: SandboxMode,
    pub policy: SandboxPolicy,
    pub backend: SandboxBackend,
    pub applied: bool,
    pub degraded: bool,
    pub notes: Vec<String>,
}

#[derive(Debug, Clone, Copy, PartialEq, Eq, Structural)]
pub enum SandboxBackend {
    Seccomp,
    Capsicum,
    Pledge,
    Noop,
}

#[derive(Debug, Clone, PartialEq, Eq)]
pub enum SandboxError {
    UnsupportedMode(SandboxMode),
    UnknownApplet(String),
    BackendUnavailable(SandboxBackend),
    CapabilityDropFailed(String),
    PolicyApplyFailed(String),
}

/// The next thing to do when a policy is applied: nothing more, or drop the
/// process's capabilities (keeping `keep`) and then finish with
/// [`finish_capability_drop`].
#[derive(Debug)]
pub enum SandboxStep {
    Done(SandboxReport),
    DropCapabilities { keep: Vec<Capability>, report: SandboxReport },
}

pub open spec fn class_rank(c: SyscallClass) -> int {
    match c {
        SyscallClass::ReadOnlyFs => 0,
        SyscallClass::WriteFs => 1,
        SyscallClass::Metadata => 2,
        SyscallClass::Memory => 3,
        SyscallClass::Process => 4,
        SyscallClass::Signal => 5,
        SyscallClass::Network => 6,
        SyscallClass::Dns => 7,
        SyscallClass::Terminal => 8,
        SyscallClass::Mount => 9,
        SyscallClass::Time => 10,
        SyscallClass::Random => 11,
    }
}

pub open spec fn capability_rank(c: Capability) -> int {
    match c {
        Capability::SysAdmin => 0,
        Capability::NetAdmin => 1,
        Capability::NetRaw => 2,
        Capability::NetBindService => 3,
        Capability::Chown => 4,
        Capability::DacOverride => 5,
        Capability::Setuid => 6,
        Capability::Setgid => 7,
        Capability::Fowner => 8,
        Capability::Kill => 9,
    }
}

/// In declaration order, each class once.
pub open spec fn classes_sorted(s: Seq<SyscallClass>) -> bool {
    forall|i: int, j: int| 0 <= i < j < s.len() ==> class_rank(#[trigger] s[i]) < class_rank(#[trigger] s[j])
}

/// In declaration order, each capability once.
pub open spec fn capabilities_sorted(s: Seq<Capability>) -> bool {
    forall|i: int, j: int| 0 <= i < j < s.len() ==> capability_rank(#[trigger] s[i]) < capability_rank(#[trigger] s[j])
}

fn class_rank_exec(c: SyscallClass) -> (r: u8)
    ensures
        r == class_rank(c),
{
    match c {
        SyscallClass::ReadOnlyFs => 0,
        SyscallClass::WriteFs => 1,
        SyscallClass::Metadata => 2,
        SyscallClass::Memory => 3,
        SyscallClass::Process => 4,
        SyscallClass::Signal => 5,
        SyscallClass::Network => 6,
        SyscallClass::Dns => 7,
        SyscallClass::Terminal => 8,
        SyscallClass::Mount => 9,
        SyscallClass::Time => 10,
        SyscallClass::Random => 11,
    }
}

fn capability_rank_exec(c: Capability) -> (r: u8)
    ensures
        r == capability_rank(c),
{
    match c {
        Capability::SysAdmin => 0,
        Capability::NetAdmin => 1,
        Capability::NetRaw => 2,
        Capability::NetBindService => 3,
        Capability::Chown => 4,
        Capability::DacOverride => 5,
        Capability::Setuid => 6,
        Capability::Setgid => 7,
        Capability::Fowner => 8,
        Capability::Kill => 9,
    }
}

/// Adds `c` to a sorted vector of classes, where it is not there yet.
/// The classes of `v` in declaration order, each once.
fn sorted_classes(v: &Vec<SyscallClass>) -> (r: Vec<SyscallClass>)
    ensures
        classes_sorted(r@),
        r@.to_set() == v@.to_set(),
{
    let mut out: Vec<SyscallClass> = Vec::new();
    let mut i: usize = 0;
    while i < v.len()
        invariant
            i <= v@.len(),
            classes_sorted(out@),
            out@.to_set() == v@.subrange(0, i as int).to_set(),
        decreases v@.len() - i,
    {
        insert_class(&mut out, v[i]);
        assert(v@.subrange(0, i + 1) =~= v@.subrange(0, i as int).push(v@[i as int]));
        proof {
            v@.subrange(0, i as int).lemma_push_to_set_commute(v@[i as int]);
        }
        i = i + 1;
    }
    assert(v@.subrange(0, v@.len() as int) =~= v@);
    out
}

/// The capabilities of `v` in declaration order, each once.
fn sorted_capabilities(v: &Vec<Capability>) -> (r: Vec<Capability>)
    ensures
        capabilities_sorted(r@),
        r@.to_set() == v@.to_set(),
{
    let mut out: Vec<Capability> = Vec::new();
    let mut i: usize = 0;
    while i < v.len()
        invariant
            i <= v@.len(),
            capabilities_sorted(out@),
            out@.to_set() == v@.subrange(0, i as int).to_set(),
        decreases v@.len() - i,
    {
        insert_capability(&mut out, v[i]);
        assert(v@.subrange(0, i + 1) =~= v@.subrange(0, i as int).push(v@[i as int]));
        proof {
            v@.subrange(0, i as int).lemma_push_to_set_commute(v@[i as int]);
        }
        i = i + 1;
    }
    assert(v@.subrange(0, v@.len() as int) =~= v@);
    out
}

fn insert_class(v: &mut Vec<SyscallClass>, c: SyscallClass)
    requires
        classes_sorted(old(v)@),
    ensures
        classes_sorted(final(v)@),
        final(v)@.to_set() == old(v)@.to_set().insert(c),
{
    let rc = class_rank_exec(c);
    let mut i: usize = 0;
    while i < v.len() && class_rank_exec(v[i]) < rc
        invariant
            i <= v@.len(),
            rc == class_rank(c),
            forall|j: int| 0 <= j < i ==> class_rank(#[trigger] v@[j]) < rc,
        decreases v@.len() - i,
    {
        i = i + 1;
    }
    if i < v.len() && class_rank_exec(v[i]) == rc {
        assert(v@[i as int] == c);
        assert(v@.to_set() =~= v@.to_set().insert(c));
        return;
    }
    let ghost before = v@;
    v.insert(i, c);
    assert(v@ =~= before.subrange(0, i as int).push(c) + before.subrange(i as int, before.len() as int));
    assert forall|x: SyscallClass| v@.to_set().contains(x) <==> before.to_set().insert(c).contains(x) by {
        if before.contains(x) {
            let k = choose|k: int| 0 <= k < before.len() && before[k] == x;
            if k < i {
                assert(v@[k] == x);
            } else {
                assert(v@[k + 1] == x);
            }
        }
        if v@.contains(x) {
            let k = choose|k: int| 0 <= k < v@.len() && v@[k] == x;
            if k < i {
                assert(before[k] == x);
            } else if k > i {
                assert(before[k - 1] == x);
            }
        }
    }
    assert(v@.to_set() =~= before.to_set().insert(c));
}

/// Adds `c` to a sorted vector of capabilities, where it is not there yet.
fn insert_capability(v: &mut Vec<Capability>, c: Capability)
    requires
        capabilities_sorted(old(v)@),
    ensures
        capabilities_sorted(final(v)@),
        final(v)@.to_set() == old(v)@.to_set().insert(c),
{
    let rc = capability_rank_exec(c);
    let mut i: usize = 0;
    while i < v.len() && capability_rank_exec(v[i]) < rc
        invariant
            i <= v@.len(),
            rc == capability_rank(c),
            forall|j: int| 0 <= j < i ==> capability_rank(#[trigger] v@[j]) < rc,
        decreases v@.len() - i,
    {
        i = i + 1;
    }
    if i < v.len() && capability_rank_exec(v[i]) == rc {
        assert(v@[i as int] == c);
        assert(v@.to_set() =~= v@.to_set().insert(c));
        return;
    }
    let ghost before = v@;
    v.insert(i, c);
    assert(v@ =~= before.subrange(0, i as int).push(c) + before.subrange(i as int, before.len() as int));
    assert forall|x: Capability| v@.to_set().contains(x) <==> before.to_set().insert(c).contains(x) by {
        if before.contains(x) {
            let k = choose|k: int| 0 <= k < before.len() && before[k] == x;
            if k < i {
                assert(v@[k] == x);
            } else {
                assert(v@[k + 1] == x);
            }
        }
        if v@.contains(x) {
            let k = choose|k: int| 0 <= k < v@.len() && v@[k] == x;
            if k < i {
                assert(before[k] == x);
            } else if k > i {
                assert(before[k - 1] == x);
            }
        }
    }
    assert(v@.to_set() =~= before.to_set().insert(c));
}

impl SandboxMode {
    /// The mode named `value` (`strict`, `permissive` or `off`).
    pub fn parse(value: &str) -> (r: Option<Self>)
        ensures
            r == if value@ == "strict"@ {
                Some(SandboxMode::Strict)
            } else if value@ == "permissive"@ {
                Some(SandboxMode::Permissive)
            } else if value@ == "off"@ {
                Some(SandboxMode::Off)
            } else {
                None
            },
    {
        if str_eq(value, "strict") {
            Some(SandboxMode::Strict)
        } else if str_eq(value, "permissive") {
            Some(SandboxMode::Permissive)
        } else if str_eq(value, "off") {
            Some(SandboxMode::Off)
        } else {
            None
        }
    }

    /// The mode's name, as the command line spells it.
    pub fn name(&self) -> (r: &'static str)
        ensures
            r@ == mode_name(*self),
    {
        match self {
            SandboxMode::Strict => "strict",
            SandboxMode::Permissive => "permissive",
            SandboxMode::Off => "off",
        }
    }
}

pub open spec fn mode_name(m: SandboxMode) -> Seq<char> {
    match m {
        SandboxMode::Strict => "strict"@,
        SandboxMode::Permissive => "permissive"@,
        SandboxMode::Off => "off"@,
    }
}

pub open spec fn class_name(c: SyscallClass) -> Seq<char> {
    match c {
        SyscallClass::ReadOnlyFs => "read-only-fs"@,
        SyscallClass::WriteFs => "write-fs"@,
        SyscallClass::Metadata => "metadata"@,
        SyscallClass::Memory => "memory"@,
        SyscallClass::Process => "process"@,
        SyscallClass::Signal => "signal"@,
        SyscallClass::Network => "network"@,
        SyscallClass::Dns => "dns"@,
        SyscallClass::Terminal => "terminal"@,
        SyscallClass::Mount => "mount"@,
        SyscallClass::Time => "time"@,
        SyscallClass::Random => "random"@,
    }
}

pub open spec fn capability_name(c: Capability) -> Seq<char> {
    match c {
        Capability::SysAdmin => "sys-admin"@,
        Capability::NetAdmin => "net-admin"@,
        Capability::NetRaw => "net-raw"@,
        Capability::NetBindService => "net-bind-service"@,
        Capability::Chown => "chown"@,
        Capability::DacOverride => "dac-override"@,
        Capability::Setuid => "setuid"@,
        Capability::Setgid => "setgid"@,
        Capability::Fowner => "fowner"@,
        Capability::Kill => "kill"@,
    }
}

fn class_name_exec(c: SyscallClass) -> (r: &'static str)
    ensures
        r@ == class_name(c),
{
    match c {
        SyscallClass::ReadOnlyFs => "read-only-fs",
        SyscallClass::WriteFs => "write-fs",
        SyscallClass::Metadata => "metadata",
        SyscallClass::Memory => "memory",
        SyscallClass::Process => "process",
        SyscallClass::Signal => "signal",
        SyscallClass::Network => "network",
        SyscallClass::Dns => "dns",
        SyscallClass::Terminal => "terminal",
        SyscallClass::Mount => "mount",
        SyscallClass::Time => "time",
        SyscallClass::Random => "random",
    }
}

fn capability_name_exec(c: Capability) -> (r: &'static str)
    ensures
        r@ == capability_name(c),
{
    match c {
        Capability::SysAdmin => "sys-admin",
        Capability::NetAdmin => "net-admin",
        Capability::NetRaw => "net-raw",
        Capability::NetBindService => "net-bind-service",
        Capability::Chown => "chown",
        Capability::DacOverride => "dac-override",
        Capability::Setuid => "setuid",
        Capability::Setgid => "setgid",
        Capability::Fowner => "fowner",
        Capability::Kill => "kill",
    }
}

impl SandboxPolicy {
    /// The classes and capabilities are sets in declaration order.
    pub open spec fn wf(&self) -> bool {
        classes_sorted(self.syscall_classes@) && capabilities_sorted(self.capabilities_to_keep@)
    }

    /// An empty policy for `applet` that supports strict mode.
    pub fn new(applet: &str) -> (r: Self)
        ensures
            r.wf(),
            r.applet@ == applet@,
            r.syscall_classes@ == Seq::<SyscallClass>::empty(),
            r.capabilities_to_keep@ == Seq::<Capability>::empty(),
            r.supports_strict,
    {
        SandboxPolicy {
            applet: String::from_str(applet),
            syscall_classes: Vec::new(),
            capabilities_to_keep: Vec::new(),
            supports_strict: true,
        }
    }

    /// The names of the classes, in order.
    pub fn syscall_classes_as_strings(&self) -> (r: Vec<&'static str>)
        ensures
            r@.len() == self.syscall_classes@.len(),
            forall|i: int| 0 <= i < r@.len() ==> (#[trigger] r@[i])@ == class_name(self.syscall_classes@[i]),
    {
        let mut out: Vec<&'static str> = Vec::new();
        let mut i: usize = 0;
        while i < self.syscall_classes.len()
            invariant
                i <= self.syscall_classes@.len(),
                out@.len() == i,
                forall|j: int| 0 <= j < i ==> (#[trigger] out@[j])@ == class_name(self.syscall_classes@[j]),
            decreases self.syscall_classes@.len() - i,
        {
            out.push(class_name_exec(self.syscall_classes[i]));
            i = i + 1;
        }
        out
    }

    /// The names of the capabilities kept, in order.
    pub fn capabilities_as_strings(&self) -> (r: Vec<&'static str>)
        ensures
            r@.len() == self.capabilities_to_keep@.len(),
            forall|i: int| 0 <= i < r@.len() ==> (#[trigger] r@[i])@ == capability_name(self.capabilities_to_keep@[i]),
    {
        let mut out: Vec<&'static str> = Vec::new();
        let mut i: usize = 0;
        while i < self.capabilities_to_keep.len()
            invariant
                i <= self.capabilities_to_keep@.len(),
                out@.len() == i,
                forall|j: int| 0 <= j < i ==> (#[trigger] out@[j])@ == capability_name(self.capabilities_to_keep@[j]),
            decreases self.capabilities_to_keep@.len() - i,
        {
            out.push(capability_name_exec(self.capabilities_to_keep[i]));
            i = i + 1;
        }
        out
    }

    /// Adds the classes `classes` (the classes come out in declaration
    /// order, each once).
    pub fn with_syscalls(self, classes: &[SyscallClass]) -> (r: Self)
        ensures
            classes_sorted(r.syscall_classes@),
            capabilities_sorted(self.capabilities_to_keep@) ==> r.wf(),
            r.syscall_classes@.to_set() == self.syscall_classes@.to_set() + classes@.to_set(),
            r.applet == self.applet,
            r.capabilities_to_keep == self.capabilities_to_keep,
            r.supports_strict == self.supports_strict,
    {
        let mut policy = self;
        policy.syscall_classes = sorted_classes(&policy.syscall_classes);
        let mut i: usize = 0;
        while i < classes.len()
            invariant
                classes_sorted(policy.syscall_classes@),
                i <= classes@.len(),
                policy.syscall_classes@.to_set() == self.syscall_classes@.to_set() + classes@.subrange(0, i as int).to_set(),
                policy.applet == self.applet,
                policy.capabilities_to_keep == self.capabilities_to_keep,
                policy.supports_strict == self.supports_strict,
            decreases classes@.len() - i,
        {
            insert_class(&mut policy.syscall_classes, classes[i]);
            assert(classes@.subrange(0, i + 1) =~= classes@.subrange(0, i as int).push(classes@[i as int]));
            proof {
                classes@.subrange(0, i as int).lemma_push_to_set_commute(classes@[i as int]);
            }
            assert(policy.syscall_classes@.to_set() =~= self.syscall_classes@.to_set() + classes@.subrange(0, i + 1).to_set());
            i = i + 1;
        }
        assert(classes@.subrange(0, classes@.len() as int) =~= classes@);
        policy
    }

    /// Adds the capabilities `capabilities` to those kept (they come out in
    /// declaration order, each once).
    pub fn with_capabilities(self, capabilities: &[Capability]) -> (r: Self)
        ensures
            capabilities_sorted(r.capabilities_to_keep@),
            classes_sorted(self.syscall_classes@) ==> r.wf(),
            r.capabilities_to_keep@.to_set() == self.capabilities_to_keep@.to_set() + capabilities@.to_set(),
            r.applet == self.applet,
            r.syscall_classes == self.syscall_classes,
            r.supports_strict == self.supports_strict,
    {
        let mut policy = self;
        policy.capabilities_to_keep = sorted_capabilities(&policy.capabilities_to_keep);
        let mut i: usize = 0;
        while i < capabilities.len()
            invariant
                capabilities_sorted(policy.capabilities_to_keep@),
                i <= capabilities@.len(),
                policy.capabilities_to_keep@.to_set() == self.capabilities_to_keep@.to_set() + capabilities@.subrange(
                    0,
                    i as int,
                ).to_set(),
                policy.applet == self.applet,
                policy.syscall_classes == self.syscall_classes,
                policy.supports_strict == self.supports_strict,
            decreases capabilities@.len() - i,
        {
            insert_capability(&mut policy.capabilities_to_keep, capabilities[i]);
            assert(capabilities@.subrange(0, i + 1) =~= capabilities@.subrange(0, i as int).push(capabilities@[i as int]));
            proof {
                capabilities@.subrange(0, i as int).lemma_push_to_set_commute(capabilities@[i as int]);
            }
            assert(policy.capabilities_to_keep@.to_set() =~= self.capabilities_to_keep@.to_set()
                + capabilities@.subrange(0, i + 1).to_set());
            i = i + 1;
        }
        assert(capabilities@.subrange(0, capabilities@.len() as int) =~= capabilities@);
        policy
    }

    /// The same policy, without support for strict mode.
    pub fn without_strict(self) -> (r: Self)
        ensures
            r.supports_strict == false,
            r.applet == self.applet,
            r.syscall_classes == self.syscall_classes,
            r.capabilities_to_keep == self.capabilities_to_keep,
    {
        let mut policy = self;
        policy.supports_strict = false;
        policy
    }

    /// This is the built-in policy for `applet`: its name, classes,
    /// capabilities and strict-mode support.
    pub open spec fn is_default_for(&self, applet: Seq<char>) -> bool {
        match default_policy(applet) {
            Some((classes, caps, strict)) => {
                &&& self.wf()
                &&& self.applet@ == applet
                &&& self.syscall_classes@.to_set() == classes
                &&& self.capabilities_to_keep@.to_set() == caps
                &&& self.supports_strict == strict
            },
            None => false,
        }
    }
}

pub open spec fn reads_only() -> Set<SyscallClass> {
    set![SyscallClass::ReadOnlyFs, SyscallClass::Metadata, SyscallClass::Memory, SyscallClass::Process]
}

pub open spec fn reads_with_terminal() -> Set<SyscallClass> {
    reads_only().insert(SyscallClass::Terminal)
}

pub open spec fn writes() -> Set<SyscallClass> {
    reads_only().insert(SyscallClass::WriteFs)
}

/// The built-in policy of each applet that has one: its system-call
/// classes, the capabilities it keeps and whether it supports strict mode.
pub open spec fn default_policy(a: Seq<char>) -> Option<(Set<SyscallClass>, Set<Capability>, bool)> {
    if a == "cat"@ {
        Some((reads_only(), Set::empty(), true))
    } else if a == "ls"@ || a == "head"@ || a == "tail"@ || a == "wc"@ || a == "basename"@ || a == "dirname"@
        || a == "pwd"@ {
        Some((reads_with_terminal(), Set::empty(), true))
    } else if a == "cp"@ || a == "mv"@ || a == "rm"@ || a == "mkdir"@ || a == "rmdir"@ || a == "touch"@ || a
        == "ln"@ {
        Some((writes().insert(SyscallClass::Terminal), Set::empty(), true))
    } else if a == "chmod"@ || a == "chown"@ || a == "chgrp"@ {
        Some((writes(), set![Capability::Fowner, Capability::Chown, Capability::DacOverride], true))
    } else if a == "echo"@ || a == "true"@ || a == "false"@ {
        Some((set![SyscallClass::Process, SyscallClass::Terminal], Set::empty(), true))
    } else if a == "grep"@ || a == "egrep"@ || a == "fgrep"@ || a == "sort"@ || a == "uniq"@ || a == "cut"@
        || a == "tr"@ || a == "sed"@ || a == "awk"@ {
        Some((reads_with_terminal(), Set::empty(), true))
    } else if a == "find"@ {
        Some((reads_with_terminal(), Set::empty(), true))
    } else if a == "tar"@ || a == "gzip"@ {
        Some((writes(), Set::empty(), true))
    } else if a == "xargs"@ {
        Some((set![SyscallClass::ReadOnlyFs, SyscallClass::Process, SyscallClass::Terminal], Set::empty(), false))
    } else if a == "sh"@ {
        Some((
            writes().insert(SyscallClass::Signal).insert(SyscallClass::Terminal).insert(SyscallClass::Time).insert(
                SyscallClass::Random,
            ),
            Set::empty(),
            false,
        ))
    } else {
        None
    }
}

fn policy_with(applet: &str, classes: &[SyscallClass]) -> (r: SandboxPolicy)
    ensures
        r.wf(),
        r.applet@ == applet@,
        r.syscall_classes@.to_set() == classes@.to_set(),
        r.capabilities_to_keep@ == Seq::<Capability>::empty(),
        r.supports_strict,
{
    let p = SandboxPolicy::new(applet);
    assert(p.syscall_classes@.to_set() =~= Set::<SyscallClass>::empty());
    let r = p.with_syscalls(classes);
    assert(r.syscall_classes@.to_set() =~= classes@.to_set());
    r
}

/// Whether `applet` is one of `names`.
fn one_of(applet: &str, names: &[&str]) -> (r: bool)
    ensures
        r == exists|i: int| 0 <= i < names@.len() && applet@ == (#[trigger] names@[i])@,
{
    let mut i: usize = 0;
    while i < names.len()
        invariant
            i <= names@.len(),
            forall|j: int| 0 <= j < i ==> applet@ != (#[trigger] names@[j])@,
        decreases names@.len() - i,
    {
        if str_eq(applet, names[i]) {
            return true;
        }
        i = i + 1;
    }
    false
}

/// The built-in policy for `applet`, if it has one.
pub fn default_policy_for(applet: &str) -> (r: Option<SandboxPolicy>)
    ensures
        match r {
            Some(p) => p.is_default_for(applet@),
            None => default_policy(applet@) is None,
        },
{
    let ro = SyscallClass::ReadOnlyFs;
    let wr = SyscallClass::WriteFs;
    let md = SyscallClass::Metadata;
    let mem = SyscallClass::Memory;
    let pr = SyscallClass::Process;
    let term = SyscallClass::Terminal;
    if str_eq(applet, "cat") {
        let classes = [ro, md, mem, pr];
        let p = policy_with("cat", &classes);
        assert(classes@.to_set() =~= reads_only());
        assert(p.capabilities_to_keep@.to_set() =~= Set::<Capability>::empty());
        return Some(p);
    }
    let group_list = ["ls", "head", "tail", "wc", "basename", "dirname", "pwd"];
    if one_of(applet, &group_list) {
        let classes = [ro, md, mem, pr, term];
        let p = policy_with(applet, &classes);
        assert(classes@.to_set() =~= reads_with_terminal());
        assert(p.capabilities_to_keep@.to_set() =~= Set::<Capability>::empty());
        return Some(p);
    }
    let group_write = ["cp", "mv", "rm", "mkdir", "rmdir", "touch", "ln"];
    if one_of(applet, &group_write) {
        let classes = [ro, wr, md, mem, pr, term];
        let p = policy_with(applet, &classes);
        assert(classes@.to_set() =~= writes().insert(SyscallClass::Terminal));
        assert(p.capabilities_to_keep@.to_set() =~= Set::<Capability>::empty());
        return Some(p);
    }
    let group_owner = ["chmod", "chown", "chgrp"];
    if one_of(applet, &group_owner) {
        let classes = [ro, wr, md, mem, pr];
        let caps = [Capability::Fowner, Capability::Chown, Capability::DacOverride];
        let p = policy_with(applet, &classes);
        assert(p.capabilities_to_keep@.to_set() =~= Set::<Capability>::empty());
        let p = p.with_capabilities(&caps);
        assert(classes@.to_set() =~= writes());
        assert(p.capabilities_to_keep@.to_set() =~= set![Capability::Fowner, Capability::Chown, Capability::DacOverride]);
        return Some(p);
    }
    let group_echo = ["echo", "true", "false"];
    if one_of(applet, &group_echo) {
        let classes = [pr, term];
        let p = policy_with(applet, &classes);
        assert(classes@.to_set() =~= set![SyscallClass::Process, SyscallClass::Terminal]);
        assert(p.capabilities_to_keep@.to_set() =~= Set::<Capability>::empty());
        return Some(p);
    }
    let group_text = ["grep", "egrep", "fgrep", "sort", "uniq", "cut", "tr", "sed", "awk"];
    if one_of(applet, &group_text) {
        let classes = [ro, md, mem, pr, term];
        let p = policy_with(applet, &classes);
        assert(classes@.to_set() =~= reads_with_terminal());
        assert(p.capabilities_to_keep@.to_set() =~= Set::<Capability>::empty());
        return Some(p);
    }
    if str_eq(applet, "find") {
        let classes = [ro, md, mem, pr, term];
        let p = policy_with("find", &classes);
        assert(classes@.to_set() =~= reads_with_terminal());
        assert(p.capabilities_to_keep@.to_set() =~= Set::<Capability>::empty());
        return Some(p);
    }
    let group_archive = ["tar", "gzip"];
    if one_of(applet, &group_archive) {
        let classes = [ro, wr, md, mem, pr];
        let p = policy_with(applet, &classes);
        assert(classes@.to_set() =~= writes());
        assert(p.capabilities_to_keep@.to_set() =~= Set::<Capability>::empty());
        return Some(p);
    }
    if str_eq(applet, "xargs") {
        let classes = [ro, pr, term];
        let p = policy_with("xargs", &classes).without_strict();
        assert(classes@.to_set() =~= set![SyscallClass::ReadOnlyFs, SyscallClass::Process, SyscallClass::Terminal]);
        assert(p.capabilities_to_keep@.to_set() =~= Set::<Capability>::empty());
        return Some(p);
    }
    if str_eq(applet, "sh") {
        let classes = [ro, wr, md, mem, pr, SyscallClass::Signal, term, SyscallClass::Time, SyscallClass::Random];
        let p = policy_with("sh", &classes).without_strict();
        assert(classes@.to_set() =~= writes().insert(SyscallClass::Signal).insert(SyscallClass::Terminal).insert(
            SyscallClass::Time,
        ).insert(SyscallClass::Random));
        assert(p.capabilities_to_keep@.to_set() =~= Set::<Capability>::empty());
        return Some(p);
    }
    None
}

pub open spec fn strings_view(v: Seq<String>) -> Seq<Seq<char>> {
    v.map_values(|s: String| s@)
}

/// The mode a policy runs in: strict mode falls back to permissive where
/// the applet does not support it.
pub open spec fn effective_mode(mode: SandboxMode, supports_strict: bool) -> SandboxMode {
    if mode == SandboxMode::Strict && !supports_strict {
        SandboxMode::Permissive
    } else {
        mode
    }
}

pub open spec fn fallback_note() -> Seq<char> {
    "strict mode unsupported for this applet; falling back to permissive"@
}

/// The notes taken before the backend acts: one where strict mode fell back.
pub open spec fn leading_notes(mode: SandboxMode, supports_strict: bool) -> Seq<Seq<char>> {
    if mode == SandboxMode::Strict && !supports_strict {
        seq![fallback_note()]
    } else {
        Seq::empty()
    }
}

/// The note each backend adds once the policy is applied.
pub open spec fn backend_note(backend: SandboxBackend, mode: SandboxMode) -> Seq<char> {
    match backend {
        SandboxBackend::Seccomp => if mode == SandboxMode::Permissive {
            "permissive mode: capability drop only"@
        } else {
            "strict mode: seccomp profile placeholder API applied"@
        },
        SandboxBackend::Capsicum => "capsicum backend API placeholder applied"@,
        SandboxBackend::Pledge => "pledge backend API placeholder applied"@,
        SandboxBackend::Noop => "sandbox backend unavailable on this target; using noop fallback"@,
    }
}

/// The report on applying the built-in policy of `applet` in `mode` on
/// `backend`, as the decisions below make it.
pub open spec fn is_planned_report(r: SandboxReport, applet: Seq<char>, mode: SandboxMode, backend: SandboxBackend) -> bool {
    &&& r.applet@ == applet
    &&& r.policy.is_default_for(applet)
    &&& if mode == SandboxMode::Off {
        &&& r.mode == SandboxMode::Off
        &&& r.backend == SandboxBackend::Noop
        &&& !r.applied
        &&& !r.degraded
        &&& strings_view(r.notes@) == seq!["sandbox disabled by mode"@]
    } else {
        let strict = r.policy.supports_strict;
        let eff = effective_mode(mode, strict);
        &&& r.backend == backend
        &&& r.mode == (if backend == SandboxBackend::Noop { mode } else { eff })
        &&& r.applied == (backend != SandboxBackend::Noop)
        &&& r.degraded == (backend == SandboxBackend::Noop)
        &&& strings_view(r.notes@) == leading_notes(mode, strict).push(backend_note(backend, eff))
    }
}

/// What applying the built-in policy of `applet` in `mode` on `backend`
/// leads to: on seccomp outside off mode, a capability drop that keeps the
/// policy's capabilities; otherwise the final report.
pub open spec fn is_planned_step(s: SandboxStep, applet: Seq<char>, mode: SandboxMode, backend: SandboxBackend) -> bool {
    match s {
        SandboxStep::Done(r) => !(mode != SandboxMode::Off && backend == SandboxBackend::Seccomp)
            && is_planned_report(r, applet, mode, backend),
        SandboxStep::DropCapabilities { keep, report } => mode != SandboxMode::Off && backend
            == SandboxBackend::Seccomp && keep@ == report.policy.capabilities_to_keep@ && is_planned_report(
            report,
            applet,
            mode,
            backend,
        ),
    }
}

fn note(text: &str) -> (r: String)
    ensures
        r@ == text@,
{
    String::from_str(text)
}

fn push_note(notes: &mut Vec<String>, text: &str)
    ensures
        strings_view(final(notes)@) == strings_view(old(notes)@).push(text@),
{
    let ghost before = notes@;
    notes.push(note(text));
    assert(strings_view(notes@) =~= strings_view(before).push(text@));
}

/// The backend for the operating system named `os` (as `std::env::consts::OS`
/// names it): seccomp on Linux, Capsicum on FreeBSD, pledge on OpenBSD,
/// none elsewhere.
pub fn detect_backend(os: &str) -> (r: SandboxBackend)
    ensures
        r == (if os@ == "linux"@ {
            SandboxBackend::Seccomp
        } else if os@ == "freebsd"@ {
            SandboxBackend::Capsicum
        } else if os@ == "openbsd"@ {
            SandboxBackend::Pledge
        } else {
            SandboxBackend::Noop
        }),
{
    if crate::text::str_eq(os, "linux") {
        SandboxBackend::Seccomp
    } else if crate::text::str_eq(os, "freebsd") {
        SandboxBackend::Capsicum
    } else if crate::text::str_eq(os, "openbsd") {
        SandboxBackend::Pledge
    } else {
        SandboxBackend::Noop
    }
}

/// Decides how the built-in policy of `applet` is applied in `mode` on
/// `backend`.
pub fn apply_sandbox_policy(applet: &str, mode: SandboxMode, backend: SandboxBackend) -> (r: Result<
    SandboxStep,
    SandboxError,
>)
    ensures
        match default_policy(applet@) {
            None => r matches Err(SandboxError::UnknownApplet(a)) && a@ == applet@,
            Some(_) => r matches Ok(s) && is_planned_step(s, applet@, mode, backend),
        },
{
    let policy = match default_policy_for(applet) {
        Some(p) => p,
        None => {
            return Err(SandboxError::UnknownApplet(String::from_str(applet)));
        },
    };
    if mode == SandboxMode::Off {
        let mut notes: Vec<String> = Vec::new();
        push_note(&mut notes, "sandbox disabled by mode");
        assert(strings_view(notes@) =~= seq!["sandbox disabled by mode"@]);
        return Ok(
            SandboxStep::Done(
                SandboxReport {
                    applet: String::from_str(applet),
                    mode,
                    policy,
                    backend: SandboxBackend::Noop,
                    applied: false,
                    degraded: false,
                    notes,
                },
            ),
        );
    }
    let mut notes: Vec<String> = Vec::new();
    assert(strings_view(notes@) =~= Seq::<Seq<char>>::empty());
    let effective = if mode == SandboxMode::Strict && !policy.supports_strict {
        push_note(&mut notes, "strict mode unsupported for this applet; falling back to permissive");
        SandboxMode::Permissive
    } else {
        mode
    };
    assert(strings_view(notes@) == leading_notes(mode, policy.supports_strict));
    match backend {
        SandboxBackend::Seccomp => Ok(apply_linux_policy(applet, effective, policy, notes)),
        SandboxBackend::Capsicum => apply_capsicum_policy(applet, effective, policy, notes),
        SandboxBackend::Pledge => apply_pledge_policy(applet, effective, policy, notes),
        SandboxBackend::Noop => {
            push_note(&mut notes, "sandbox backend unavailable on this target; using noop fallback");
            Ok(
                SandboxStep::Done(
                    SandboxReport {
                        applet: String::from_str(applet),
                        mode,
                        policy,
                        backend,
                        applied: false,
                        degraded: true,
                        notes,
                    },
                ),
            )
        },
    }
}

/// The same decision as [`apply_sandbox_policy`], for reporting.
pub fn sandbox_report_for(applet: &str, mode: SandboxMode, backend: SandboxBackend) -> (r: Result<
    SandboxStep,
    SandboxError,
>)
    ensures
        match default_policy(applet@) {
            None => r matches Err(SandboxError::UnknownApplet(a)) && a@ == applet@,
            Some(_) => r matches Ok(s) && is_planned_step(s, applet@, mode, backend),
        },
{
    apply_sandbox_policy(applet, mode, backend)
}

/// Completes a capability drop: its failure is the outcome, else the report.
pub fn finish_capability_drop(report: SandboxReport, dropped: Result<(), SandboxError>) -> (r: Result<
    SandboxReport,
    SandboxError,
>)
    ensures
        match dropped {
            Ok(()) => r == Ok::<SandboxReport, SandboxError>(report),
            Err(e) => r == Err::<SandboxReport, SandboxError>(e),
        },
{
    match dropped {
        Ok(()) => Ok(report),
        Err(e) => Err(e),
    }
}

fn apply_linux_policy(applet: &str, mode: SandboxMode, policy: SandboxPolicy, notes: Vec<String>) -> (r: SandboxStep)
    requires
        mode != SandboxMode::Off,
    ensures
        r matches SandboxStep::DropCapabilities { keep, report } && keep@ == policy.capabilities_to_keep@
            && report.applet@ == applet@ && report.mode == mode && report.policy == policy && report.backend
            == SandboxBackend::Seccomp && report.applied && !report.degraded && strings_view(report.notes@)
            == strings_view(notes@).push(backend_note(SandboxBackend::Seccomp, mode)),
{
    let keep = policy.capabilities_to_keep.clone();
    let mut notes = notes;
    if mode == SandboxMode::Permissive {
        push_note(&mut notes, "permissive mode: capability drop only");
    } else {
        push_note(&mut notes, "strict mode: seccomp profile placeholder API applied");
    }
    SandboxStep::DropCapabilities {
        keep,
        report: SandboxReport {
            applet: String::from_str(applet),
            mode,
            policy,
            backend: SandboxBackend::Seccomp,
            applied: true,
            degraded: false,
            notes,
        },
    }
}

fn apply_capsicum_policy(applet: &str, mode: SandboxMode, policy: SandboxPolicy, notes: Vec<String>) -> (r: Result<
    SandboxStep,
    SandboxError,
>)
    ensures
        if mode == SandboxMode::Strict && !policy.supports_strict {
            r == Err::<SandboxStep, SandboxError>(SandboxError::UnsupportedMode(mode))
        } else {
            r matches Ok(SandboxStep::Done(report)) && report.applet@ == applet@ && report.mode == mode
                && report.policy == policy && report.backend == SandboxBackend::Capsicum && report.applied
                && !report.degraded && strings_view(report.notes@) == strings_view(notes@).push(
                backend_note(SandboxBackend::Capsicum, mode),
            )
        },
{
    if mode == SandboxMode::Strict && !policy.supports_strict {
        return Err(SandboxError::UnsupportedMode(mode));
    }
    let mut notes = notes;
    push_note(&mut notes, "capsicum backend API placeholder applied");
    Ok(
        SandboxStep::Done(
            SandboxReport {
                applet: String::from_str(applet),
                mode,
                policy,
                backend: SandboxBackend::Capsicum,
                applied: true,
                degraded: false,
                notes,
            },
        ),
    )
}

fn apply_pledge_policy(applet: &str, mode: SandboxMode, policy: SandboxPolicy, notes: Vec<String>) -> (r: Result<
    SandboxStep,
    SandboxError,
>)
    ensures
        if mode == SandboxMode::Strict && !policy.supports_strict {
            r == Err::<SandboxStep, SandboxError>(SandboxError::UnsupportedMode(mode))
        } else {
            r matches Ok(SandboxStep::Done(report)) && report.applet@ == applet@ && report.mode == mode
                && report.policy == policy && report.backend == SandboxBackend::Pledge && report.applied
                && !report.degraded && strings_view(report.notes@) == strings_view(notes@).push(
                backend_note(SandboxBackend::Pledge, mode),
            )
        },
{
    if mode == SandboxMode::Strict && !policy.supports_strict {
        return Err(SandboxError::UnsupportedMode(mode));
    }
    let mut notes = notes;
    push_note(&mut notes, "pledge backend API placeholder applied");
    Ok(
        SandboxStep::Done(
            SandboxReport {
                applet: String::from_str(applet),
                mode,
                policy,
                backend: SandboxBackend::Pledge,
                applied: true,
                degraded: false,
                notes,
            },
        ),
    )
}

impl SandboxError {
    /// The message that describes the error.
    pub fn message(&self) -> (r: String)
        ensures
            r@ == error_message(*self),
    {
        match self {
            SandboxError::UnsupportedMode(mode) => concat_str("sandbox mode not supported: ", mode_debug_name(*mode)),
            SandboxError::UnknownApplet(applet) => concat_str("unknown sandbox applet: ", applet.as_str()),
            SandboxError::BackendUnavailable(backend) => concat_str(
                "sandbox backend unavailable: ",
                backend_debug_name(*backend),
            ),
            SandboxError::CapabilityDropFailed(msg) => concat_str("capability drop failed: ", msg.as_str()),
            SandboxError::PolicyApplyFailed(msg) => concat_str("sandbox policy apply failed: ", msg.as_str()),
        }
    }
}

pub open spec fn error_message(e: SandboxError) -> Seq<char> {
    match e {
        SandboxError::UnsupportedMode(mode) => "sandbox mode not supported: "@ + mode_variant(mode),
        SandboxError::UnknownApplet(applet) => "unknown sandbox applet: "@ + applet@,
        SandboxError::BackendUnavailable(backend) => "sandbox backend unavailable: "@ + backend_variant(backend),
        SandboxError::CapabilityDropFailed(msg) => "capability drop failed: "@ + msg@,
        SandboxError::PolicyApplyFailed(msg) => "sandbox policy apply failed: "@ + msg@,
    }
}

/// The variant's name, as `Debug` writes it.
pub open spec fn mode_variant(m: SandboxMode) -> Seq<char> {
    match m {
        SandboxMode::Strict => "Strict"@,
        SandboxMode::Permissive => "Permissive"@,
        SandboxMode::Off => "Off"@,
    }
}

/// The variant's name, as `Debug` writes it.
pub open spec fn backend_variant(b: SandboxBackend) -> Seq<char> {
    match b {
        SandboxBackend::Seccomp => "Seccomp"@,
        SandboxBackend::Capsicum => "Capsicum"@,
        SandboxBackend::Pledge => "Pledge"@,
        SandboxBackend::Noop => "Noop"@,
    }
}

fn mode_debug_name(m: SandboxMode) -> (r: &'static str)
    ensures
        r@ == mode_variant(m),
{
    match m {
        SandboxMode::Strict => "Strict",
        SandboxMode::Permissive => "Permissive",
        SandboxMode::Off => "Off",
    }
}

fn backend_debug_name(b: SandboxBackend) -> (r: &'static str)
    ensures
        r@ == backend_variant(b),
{
    match b {
        SandboxBackend::Seccomp => "Seccomp",
        SandboxBackend::Capsicum => "Capsicum",
        SandboxBackend::Pledge => "Pledge",
        SandboxBackend::Noop => "Noop",
    }
}

/// What [`apply_sandbox_policy`] and [`sandbox_report_for`] promise of
/// their result for `applet`, `mode` and `backend`.
pub open spec fn is_planned_outcome(
    r: Result<SandboxStep, SandboxError>,
    applet: Seq<char>,
    mode: SandboxMode,
    backend: SandboxBackend,
) -> bool {
    match default_policy(applet) {
        None => r matches Err(SandboxError::UnknownApplet(a)) && a@ == applet,
        Some(_) => r matches Ok(s) && is_planned_step(s, applet, mode, backend),
    }
}

pub open spec fn policy_view(p: SandboxPolicy) -> (Seq<char>, Seq<SyscallClass>, Seq<Capability>, bool) {
    (p.applet@, p.syscall_classes@, p.capabilities_to_keep@, p.supports_strict)
}

pub open spec fn report_view(r: SandboxReport) -> (
    Seq<char>,
    SandboxMode,
    (Seq<char>, Seq<SyscallClass>, Seq<Capability>, bool),
    SandboxBackend,
    bool,
    bool,
    Seq<Seq<char>>,
) {
    (r.applet@, r.mode, policy_view(r.policy), r.backend, r.applied, r.degraded, strings_view(r.notes@))
}

/// A step by its contents: whether capabilities are dropped, those kept,
/// and the report.
pub open spec fn step_view(s: SandboxStep) -> (
    bool,
    Seq<Capability>,
    (
        Seq<char>,
        SandboxMode,
        (Seq<char>, Seq<SyscallClass>, Seq<Capability>, bool),
        SandboxBackend,
        bool,
        bool,
        Seq<Seq<char>>,
    ),
) {
    match s {
        SandboxStep::Done(r) => (false, Seq::empty(), report_view(r)),
        SandboxStep::DropCapabilities { keep, report } => (true, keep@, report_view(report)),
    }
}

/// Two sequences that are each strictly increasing by `rank` and hold the
/// same elements are the same sequence.
proof fn lemma_ranked_unique<T>(a: Seq<T>, b: Seq<T>, rank: spec_fn(T) -> int)
    requires
        forall|i: int, j: int| 0 <= i < j < a.len() ==> rank(#[trigger] a[i]) < rank(#[trigger] a[j]),
        forall|i: int, j: int| 0 <= i < j < b.len() ==> rank(#[trigger] b[i]) < rank(#[trigger] b[j]),
        a.to_set() == b.to_set(),
    ensures
        a == b,
    decreases a.len(),
{
    if a.len() == 0 {
        if b.len() > 0 {
            assert(a.to_set().contains(b[0]));
        }
        assert(a =~= b);
    } else {
        assert(b.to_set().contains(a[0]));
        let k = choose|k: int| 0 <= k < b.len() && b[k] == a[0];
        assert(a.to_set().contains(b[0]));
        let m = choose|m: int| 0 <= m < a.len() && a[m] == b[0];
        if k > 0 {
            assert(rank(b[0]) < rank(b[k]));
            if m > 0 {
                assert(rank(a[0]) < rank(a[m]));
            }
            assert(false);
        }
        let a1 = a.drop_first();
        let b1 = b.drop_first();
        assert forall|x: T| a1.to_set().contains(x) implies b1.to_set().contains(x) by {
            let i = choose|i: int| 0 <= i < a1.len() && a1[i] == x;
            assert(a[i + 1] == x);
            assert(rank(a[0]) < rank(a[i + 1]));
            assert(b.to_set().contains(x));
            let j = choose|j: int| 0 <= j < b.len() && b[j] == x;
            assert(j != 0);
            assert(b1[j - 1] == x);
        }
        assert forall|x: T| b1.to_set().contains(x) implies a1.to_set().contains(x) by {
            let j = choose|j: int| 0 <= j < b1.len() && b1[j] == x;
            assert(b[j + 1] == x);
            assert(rank(b[0]) < rank(b[j + 1]));
            assert(a.to_set().contains(x));
            let i = choose|i: int| 0 <= i < a.len() && a[i] == x;
            assert(i != 0);
            assert(a1[i - 1] == x);
        }
        assert(a1.to_set() =~= b1.to_set());
        assert forall|i: int, j: int| 0 <= i < j < a1.len() implies rank(#[trigger] a1[i]) < rank(#[trigger] a1[j]) by {
            assert(a1[i] == a[i + 1] && a1[j] == a[j + 1]);
        }
        assert forall|i: int, j: int| 0 <= i < j < b1.len() implies rank(#[trigger] b1[i]) < rank(#[trigger] b1[j]) by {
            assert(b1[i] == b[i + 1] && b1[j] == b[j + 1]);
        }
        lemma_ranked_unique(a1, b1, rank);
        assert(a =~= b) by {
            assert forall|i: int| 0 <= i < a.len() implies a[i] == b[i] by {
                if i > 0 {
                    assert(a[i] == a1[i - 1] && b[i] == b1[i - 1]);
                }
            }
        }
    }
}

/// Two well-formed policies that are both the built-in policy of `applet`
/// are the same policy.
proof fn lemma_default_policy_unique(p: SandboxPolicy, q: SandboxPolicy, applet: Seq<char>)
    requires
        p.is_default_for(applet),
        q.is_default_for(applet),
    ensures
        policy_view(p) == policy_view(q),
{
    let cr = |c: SyscallClass| class_rank(c);
    let kr = |c: Capability| capability_rank(c);
    lemma_ranked_unique(p.syscall_classes@, q.syscall_classes@, cr);
    lemma_ranked_unique(p.capabilities_to_keep@, q.capabilities_to_keep@, kr);
}

/// Reporting a policy is applying it: any two results that
/// [`sandbox_report_for`] and [`apply_sandbox_policy`] may give for the same
/// applet, mode and backend agree in every part (the same error, or the same
/// step with the same report and the same capabilities to keep).
pub proof fn lemma_report_is_apply(
    applet: Seq<char>,
    mode: SandboxMode,
    backend: SandboxBackend,
    reported: Result<SandboxStep, SandboxError>,
    applied: Result<SandboxStep, SandboxError>,
)
    requires
        is_planned_outcome(reported, applet, mode, backend),
        is_planned_outcome(applied, applet, mode, backend),
    ensures
        match (reported, applied) {
            (Ok(s1), Ok(s2)) => step_view(s1) == step_view(s2),
            (Err(SandboxError::UnknownApplet(a1)), Err(SandboxError::UnknownApplet(a2))) => a1@ == a2@,
            _ => false,
        },
{
    if let (Ok(s1), Ok(s2)) = (reported, applied) {
        let (r1, r2) = match (s1, s2) {
            (SandboxStep::Done(x), SandboxStep::Done(y)) => (x, y),
            (SandboxStep::DropCapabilities { keep: _, report: x }, SandboxStep::DropCapabilities { keep: _, report: y }) => (x, y),
            (SandboxStep::Done(x), SandboxStep::DropCapabilities { keep: _, report: y }) => (x, y),
            (SandboxStep::DropCapabilities { keep: _, report: x }, SandboxStep::Done(y)) => (x, y),
        };
        lemma_default_policy_unique(r1.policy, r2.policy, applet);
    }
}

} // verus!
