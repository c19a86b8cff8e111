//! What a project lists of its packages.

use vstd::prelude::*;
use vstd::string::StrSliceExecFns;
use vstd::string::StringExecFns;
use crate::chars::{chars_of, str_eq};
use crate::indexer::underscored;
use crate::names::{eq_ignoring_dash_underscore, is_runtime_name, names_match};
use crate::order::{lemma_text_lt_irreflexive, lemma_text_lt_transitive, text_before, text_lt};

verus! {

/// Where a package comes from.
#[derive(Debug, Clone, Copy, PartialEq, Eq, Structural)]
pub enum CrateType {
    /// A member of the workspace.
    Workspace,
    /// A dependency.
    Library,
    /// A package of the language's runtime.
    Rust,
}

impl CrateType {
    /// Whether the package is a member of the workspace.
    pub fn is_workspace(&self) -> (r: bool)
        ensures
            r == (*self == CrateType::Workspace),
    {
        match self {
            CrateType::Workspace => true,
            _ => false,
        }
    }
}

/// One package that a project can show.
#[derive(Debug)]
pub struct CrateInfo {
    pub crate_type: CrateType,
    pub version: Option<String>,
    pub description: Option<String>,
    pub dev_dep: bool,
    pub name: String,
    pub default_crate: bool,
    /// The workspace members that depend on the package.
    pub used_by: Vec<String>,
}

/// Whether `names` holds `name`.
pub open spec fn holds_name(names: Seq<String>, name: Seq<char>) -> bool {
    exists|i: int| 0 <= i < names.len() && (#[trigger] names[i])@ == name
}

/// Whether a package is listed for a workspace member: the members of the
/// workspace, the packages that the member uses, and the runtime's are.
/// Where no member is named, every package is listed.
pub open spec fn listed_for(info: CrateInfo, member: Option<Seq<char>>) -> bool {
    match member {
        Some(m) => info.crate_type == CrateType::Workspace || holds_name(info.used_by@, m)
            || info.crate_type == CrateType::Rust,
        None => true,
    }
}

impl CrateInfo {
    /// Whether the package is listed for this workspace member.
    pub fn is_listed_for(&self, member: Option<&str>) -> (r: bool)
        ensures
            r == listed_for(
                *self,
                match member {
                    Some(m) => Some(m@),
                    None => None,
                },
            ),
    {
        match member {
            None => true,
            Some(m) => {
                if self.crate_type.is_workspace() {
                    return true;
                }
                let mut i: usize = 0;
                while i < self.used_by.len()
                    invariant
                        i <= self.used_by@.len(),
                        member == Some(m),
                        self.crate_type != CrateType::Workspace,
                        forall|j: int| 0 <= j < i ==> (#[trigger] self.used_by@[j])@ != m@,
                    decreases self.used_by@.len() - i,
                {
                    if str_eq(self.used_by[i].as_str(), m) {
                        assert(self.used_by@[i as int]@ == m@);
                        return true;
                    }
                    i += 1;
                }
                match self.crate_type {
                    CrateType::Rust => true,
                    _ => false,
                }
            },
        }
    }
}

/// What a look at the snapshot file of a package found.
#[derive(Debug, Clone, Copy, PartialEq, Eq, Structural)]
pub enum Probe {
    /// The file is there, of the right versions and no older than the
    /// sources, and its content can be read.
    Usable,
    /// The file is there and of the right versions, but its content cannot
    /// be read.
    Unreadable,
    /// The file is absent, of another version, or older than the sources.
    Outdated,
}

/// What to do next about the snapshot of a package.
#[derive(Debug, Clone, Copy, PartialEq, Eq, Structural)]
pub enum LoadStep {
    /// Take the snapshot as it was read.
    Accept,
    /// Have the snapshot made anew, then look again.
    Rebuild,
    /// The package has no snapshot.
    GiveUp,
}

/// The next step after a look at the snapshot file.
///
/// An outdated snapshot is made anew, but once only, and never for a
/// package of the runtime. A snapshot whose content cannot be read is given
/// up at once.
pub open spec fn step_after(crate_type: CrateType, tried_rebuilding: bool, probe: Probe) -> LoadStep {
    match probe {
        Probe::Usable => LoadStep::Accept,
        Probe::Unreadable => LoadStep::GiveUp,
        Probe::Outdated => if tried_rebuilding || crate_type == CrateType::Rust {
            LoadStep::GiveUp
        } else {
            LoadStep::Rebuild
        },
    }
}

/// Decides what to do after a look at the snapshot file of a package.
pub fn next_step(crate_type: CrateType, tried_rebuilding: bool, probe: Probe) -> (r: LoadStep)
    ensures
        r == step_after(crate_type, tried_rebuilding, probe),
        tried_rebuilding ==> r != LoadStep::Rebuild,
{
    match probe {
        Probe::Usable => LoadStep::Accept,
        Probe::Unreadable => LoadStep::GiveUp,
        Probe::Outdated => {
            if tried_rebuilding {
                LoadStep::GiveUp
            } else {
                match crate_type {
                    CrateType::Rust => LoadStep::GiveUp,
                    _ => LoadStep::Rebuild,
                }
            }
        },
    }
}

/// Whether a snapshot is older than the sources: it is where its time of
/// writing is unknown, and where some source file was written after it.
pub open spec fn stale(snapshot_mtime: Option<u128>, sources: Seq<u128>) -> bool {
    match snapshot_mtime {
        None => true,
        Some(written) => exists|i: int| 0 <= i < sources.len() && #[trigger] sources[i] > written,
    }
}

/// Decides whether the snapshot of a workspace member is older than the
/// member's sources.
pub fn is_stale(snapshot_mtime: Option<u128>, sources: &Vec<u128>) -> (r: bool)
    ensures
        r == stale(snapshot_mtime, sources@),
{
    match snapshot_mtime {
        None => true,
        Some(written) => {
            let mut i: usize = 0;
            while i < sources.len()
                invariant
                    i <= sources@.len(),
                    snapshot_mtime == Some(written),
                    forall|j: int| 0 <= j < i ==> (#[trigger] sources@[j]) <= written,
                decreases sources@.len() - i,
            {
                if sources[i] > written {
                    assert(sources@[i as int] > written);
                    return true;
                }
                i += 1;
            }
            false
        },
    }
}

/// Whether the versions in the header of a snapshot file are the ones
/// wanted: the format's always, the package's where one is expected.
pub open spec fn versions_fit(
    format_version: u32,
    wanted_format: u32,
    crate_version: Option<Seq<char>>,
    wanted_version: Option<Option<Seq<char>>>,
) -> bool {
    format_version == wanted_format && match wanted_version {
        Some(wanted) => crate_version == wanted,
        None => true,
    }
}

/// Checks the versions in the header of a snapshot file.
pub fn header_fits(
    format_version: u32,
    wanted_format: u32,
    crate_version: Option<&str>,
    wanted_version: Option<Option<&str>>,
) -> (r: bool)
    ensures
        r == versions_fit(
            format_version,
            wanted_format,
            match crate_version {
                Some(v) => Some(v@),
                None => None,
            },
            match wanted_version {
                Some(Some(v)) => Some(Some(v@)),
                Some(None) => Some(None),
                None => None,
            },
        ),
{
    if format_version != wanted_format {
        return false;
    }
    match wanted_version {
        None => true,
        Some(wanted) => match (crate_version, wanted) {
            (Some(a), Some(b)) => str_eq(a, b),
            (None, None) => true,
            _ => false,
        },
    }
}

/// One dependency of a workspace member.
#[derive(Debug)]
pub struct Dependency {
    pub name: String,
    /// The dependency is given by a path: it is a package of the project.
    pub is_path: bool,
    /// The dependency is one for development only.
    pub is_dev: bool,
}

/// One member of the workspace.
#[derive(Debug)]
pub struct Member {
    pub name: String,
    pub description: Option<String>,
    pub version: String,
    pub dependencies: Vec<Dependency>,
}

/// What is known of a package that the project resolves to.
#[derive(Debug)]
pub struct PackageMeta {
    pub name: String,
    pub version: String,
    pub description: Option<String>,
}

/// A dependency with the members that use it.
#[derive(Debug)]
pub struct Usage {
    pub name: String,
    pub used_by: Vec<String>,
    pub dev_dep: bool,
}

/// A [`Usage`] as plain values.
pub struct UsageView {
    pub name: Seq<char>,
    pub used_by: Seq<Seq<char>>,
    pub dev_dep: bool,
}

/// The texts of a list of strings.
pub open spec fn string_views(v: Seq<String>) -> Seq<Seq<char>> {
    Seq::new(v.len(), |i: int| v[i]@)
}

/// The usages of a list as plain values.
pub open spec fn usage_views(v: Seq<Usage>) -> Seq<UsageView> {
    Seq::new(
        v.len(),
        |i: int| UsageView { name: v[i].name@, used_by: string_views(v[i].used_by@), dev_dep: v[i].dev_dep },
    )
}

/// The names of the usages rise strictly in the order of a dictionary, so
/// each dependency is listed once.
pub open spec fn by_name(groups: Seq<UsageView>) -> bool {
    forall|i: int, j: int| 0 <= i < j < groups.len() ==> text_lt(groups[i].name, groups[j].name)
}

/// Where the usage of `name` stands among `groups[from..]`.
pub open spec fn group_of(groups: Seq<UsageView>, name: Seq<char>, from: int) -> Option<int>
    decreases groups.len() - from,
{
    if from < 0 || from >= groups.len() {
        None
    } else if groups[from].name == name {
        Some(from)
    } else {
        group_of(groups, name, from + 1)
    }
}

/// Where a usage of `name` goes among `groups[from..]`: before the first
/// usage that it comes before.
pub open spec fn slot_for(groups: Seq<UsageView>, name: Seq<char>, from: int) -> int
    decreases groups.len() - from,
{
    if from < 0 || from >= groups.len() {
        groups.len() as int
    } else if text_lt(name, groups[from].name) {
        from
    } else {
        slot_for(groups, name, from + 1)
    }
}

/// The usages after one more use is on record.
///
/// A dependency that is listed gains the user. In a workspace of several
/// members it is one for development if any use of it is; in a single
/// package the use last recorded decides. A dependency that is not listed
/// yet takes its place by name.
pub open spec fn recorded(
    groups: Seq<UsageView>,
    name: Seq<char>,
    user: Seq<char>,
    is_dev: bool,
    many: bool,
) -> Seq<UsageView> {
    match group_of(groups, name, 0) {
        Some(i) => groups.update(
            i,
            UsageView {
                name,
                used_by: groups[i].used_by.push(user),
                dev_dep: if many {
                    groups[i].dev_dep || is_dev
                } else {
                    is_dev
                },
            },
        ),
        None => groups.insert(
            slot_for(groups, name, 0),
            UsageView { name, used_by: seq![user], dev_dep: is_dev },
        ),
    }
}

proof fn lemma_group_of(groups: Seq<UsageView>, name: Seq<char>, from: int)
    requires
        0 <= from <= groups.len(),
    ensures
        match group_of(groups, name, from) {
            Some(i) => from <= i < groups.len() && groups[i].name == name,
            None => forall|k: int| from <= k < groups.len() ==> (#[trigger] groups[k]).name != name,
        },
    decreases groups.len() - from,
{
    if from < groups.len() && groups[from].name != name {
        lemma_group_of(groups, name, from + 1);
    }
}

proof fn lemma_slot_for(groups: Seq<UsageView>, name: Seq<char>, from: int)
    requires
        0 <= from <= groups.len(),
    ensures
        from <= slot_for(groups, name, from) <= groups.len(),
        forall|k: int|
            from <= k < slot_for(groups, name, from) ==> !text_lt(name, (#[trigger] groups[k]).name),
        slot_for(groups, name, from) < groups.len() ==> text_lt(
            name,
            groups[slot_for(groups, name, from)].name,
        ),
    decreases groups.len() - from,
{
    if from < groups.len() && !text_lt(name, groups[from].name) {
        lemma_slot_for(groups, name, from + 1);
    }
}

/// Of two different texts one comes before the other.
proof fn lemma_text_lt_total(a: Seq<char>, b: Seq<char>, from: int)
    requires
        0 <= from <= a.len(),
        from <= b.len(),
        forall|k: int| 0 <= k < from ==> a[k] == b[k],
        a != b,
    ensures
        crate::order::text_lt_from(a, b, from) || crate::order::text_lt_from(b, a, from),
    decreases a.len() - from,
{
    if from < a.len() && from < b.len() && a[from] == b[from] {
        lemma_text_lt_total(a, b, from + 1);
    } else if from == a.len() && from == b.len() {
        assert(a =~= b);
    } else if from < a.len() && from < b.len() {
        let x = a[from];
        let y = b[from];
        assert(x != y);
        vstd::utf8::char_u32_cast(x, x as u32);
        vstd::utf8::char_u32_cast(y, y as u32);
        assert(x as u32 != y as u32);
    }
}

/// Recording a use keeps the usages in the order of their names.
pub proof fn lemma_recorded_by_name(
    groups: Seq<UsageView>,
    name: Seq<char>,
    user: Seq<char>,
    is_dev: bool,
    many: bool,
)
    requires
        by_name(groups),
    ensures
        by_name(recorded(groups, name, user, is_dev, many)),
{
    lemma_group_of(groups, name, 0);
    lemma_slot_for(groups, name, 0);
    let out = recorded(groups, name, user, is_dev, many);
    match group_of(groups, name, 0) {
        Some(i) => {
            assert forall|a: int, b: int| 0 <= a < b < out.len() implies text_lt(
                out[a].name,
                out[b].name,
            ) by {
                assert(out[a].name == groups[a].name && out[b].name == groups[b].name);
            }
        },
        None => {
            let p = slot_for(groups, name, 0);
            assert forall|a: int, b: int| 0 <= a < b < out.len() implies text_lt(
                out[a].name,
                out[b].name,
            ) by {
                if b == p {
                    assert(out[a] == groups[a]);
                    assert(groups[a].name != name);
                    assert(!text_lt(name, groups[a].name));
                    lemma_text_lt_total(groups[a].name, name, 0);
                } else if a == p {
                    assert(out[b] == groups[b - 1]);
                    if b - 1 > p {
                        lemma_text_lt_transitive(name, groups[p].name, groups[b - 1].name);
                    }
                } else {
                    let x = if a < p {
                        a
                    } else {
                        a - 1
                    };
                    let y = if b < p {
                        b
                    } else {
                        b - 1
                    };
                    assert(out[a] == groups[x] && out[b] == groups[y]);
                }
            }
        },
    }
}

/// Puts one use of a dependency by a member on record.
#[verifier::rlimit(40)]
pub fn record_use(groups: &mut Vec<Usage>, name: &str, user: &str, is_dev: bool, many: bool)
    ensures
        usage_views(final(groups)@) == recorded(usage_views(old(groups)@), name@, user@, is_dev, many),
{
    let ghost before = usage_views(groups@);
    let mut i: usize = 0;
    while i < groups.len()
        invariant
            i <= groups@.len(),
            groups@ == old(groups)@,
            before == usage_views(groups@),
            group_of(before, name@, 0) == group_of(before, name@, i as int),
        decreases groups@.len() - i,
    {
        assert(before[i as int].name == groups@[i as int].name@);
        if str_eq(groups[i].name.as_str(), name) {
            let ghost users = string_views(groups@[i as int].used_by@);
            let was_dev = groups[i].dev_dep;
            groups[i].used_by.push(String::from_str(user));
            groups[i].dev_dep = if many {
                was_dev || is_dev
            } else {
                is_dev
            };
            proof {
                assert(string_views(groups@[i as int].used_by@) =~= users.push(user@));
                assert(usage_views(groups@) =~= before.update(
                    i as int,
                    UsageView {
                        name: name@,
                        used_by: before[i as int].used_by.push(user@),
                        dev_dep: if many {
                            before[i as int].dev_dep || is_dev
                        } else {
                            is_dev
                        },
                    },
                ));
            }
            return ;
        }
        i += 1;
    }
    let mut p: usize = 0;
    while p < groups.len() && !text_before(name, groups[p].name.as_str())
        invariant
            p <= groups@.len(),
            groups@ == old(groups)@,
            before == usage_views(groups@),
            slot_for(before, name@, 0) == slot_for(before, name@, p as int),
        decreases groups@.len() - p,
    {
        assert(before[p as int].name == groups@[p as int].name@);
        p += 1;
    }
    proof {
        if p < groups@.len() {
            assert(before[p as int].name == groups@[p as int].name@);
        }
    }
    let mut users: Vec<String> = Vec::new();
    users.push(String::from_str(user));
    assert(string_views(users@) =~= seq![user@]);
    groups.insert(p, Usage { name: String::from_str(name), used_by: users, dev_dep: is_dev });
    assert(usage_views(groups@) =~= before.insert(
        p as int,
        UsageView { name: name@, used_by: seq![user@], dev_dep: is_dev },
    ));
}

/// Whether a member of the workspace has this name.
pub open spec fn is_member(members: Seq<Member>, name: Seq<char>) -> bool {
    exists|i: int| 0 <= i < members.len() && (#[trigger] members[i]).name@ == name
}

/// The usages after the dependencies `deps[from..]` of a member are on
/// record. Dependencies by path and on members of the workspace are passed
/// over.
pub open spec fn member_uses(
    groups: Seq<UsageView>,
    members: Seq<Member>,
    user: Seq<char>,
    deps: Seq<Dependency>,
    from: int,
) -> Seq<UsageView>
    decreases deps.len() - from,
{
    if from < 0 || from >= deps.len() {
        groups
    } else {
        let next = if deps[from].is_path || is_member(members, deps[from].name@) {
            groups
        } else {
            recorded(groups, deps[from].name@, user, deps[from].is_dev, true)
        };
        member_uses(next, members, user, deps, from + 1)
    }
}

/// The usages after the dependencies of the members `members[from..]` are on
/// record.
pub open spec fn workspace_uses(groups: Seq<UsageView>, members: Seq<Member>, from: int) -> Seq<
    UsageView,
>
    decreases members.len() - from,
{
    if from < 0 || from >= members.len() {
        groups
    } else {
        workspace_uses(
            member_uses(groups, members, members[from].name@, members[from].dependencies@, 0),
            members,
            from + 1,
        )
    }
}

/// The usages after the dependencies `deps[from..]` of a single package are
/// on record.
pub open spec fn manifest_uses(
    groups: Seq<UsageView>,
    deps: Seq<String>,
    user: Seq<char>,
    is_dev: bool,
    from: int,
) -> Seq<UsageView>
    decreases deps.len() - from,
{
    if from < 0 || from >= deps.len() {
        groups
    } else {
        manifest_uses(recorded(groups, deps[from]@, user, is_dev, false), deps, user, is_dev, from + 1)
    }
}

/// The dependencies of a project with the members that use them, by name.
///
/// In a workspace of several members, what the members depend on. For a
/// single package, what its manifest lists: the dependencies, then those for
/// development.
pub open spec fn usage_of(members: Seq<Member>, deps: Seq<String>, dev_deps: Seq<String>) -> Seq<
    UsageView,
> {
    if members.len() > 1 {
        workspace_uses(Seq::empty(), members, 0)
    } else {
        let user = if members.len() == 1 {
            members[0].name@
        } else {
            Seq::empty()
        };
        manifest_uses(manifest_uses(Seq::empty(), deps, user, false, 0), dev_deps, user, true, 0)
    }
}

proof fn lemma_member_uses_by_name(
    groups: Seq<UsageView>,
    members: Seq<Member>,
    user: Seq<char>,
    deps: Seq<Dependency>,
    from: int,
)
    requires
        by_name(groups),
    ensures
        by_name(member_uses(groups, members, user, deps, from)),
    decreases deps.len() - from,
{
    if 0 <= from < deps.len() {
        let next = if deps[from].is_path || is_member(members, deps[from].name@) {
            groups
        } else {
            recorded(groups, deps[from].name@, user, deps[from].is_dev, true)
        };
        lemma_recorded_by_name(groups, deps[from].name@, user, deps[from].is_dev, true);
        lemma_member_uses_by_name(next, members, user, deps, from + 1);
    }
}

proof fn lemma_workspace_uses_by_name(groups: Seq<UsageView>, members: Seq<Member>, from: int)
    requires
        by_name(groups),
    ensures
        by_name(workspace_uses(groups, members, from)),
    decreases members.len() - from,
{
    if 0 <= from < members.len() {
        lemma_member_uses_by_name(
            groups,
            members,
            members[from].name@,
            members[from].dependencies@,
            0,
        );
        lemma_workspace_uses_by_name(
            member_uses(groups, members, members[from].name@, members[from].dependencies@, 0),
            members,
            from + 1,
        );
    }
}

proof fn lemma_manifest_uses_by_name(
    groups: Seq<UsageView>,
    deps: Seq<String>,
    user: Seq<char>,
    is_dev: bool,
    from: int,
)
    requires
        by_name(groups),
    ensures
        by_name(manifest_uses(groups, deps, user, is_dev, from)),
    decreases deps.len() - from,
{
    if 0 <= from < deps.len() {
        lemma_recorded_by_name(groups, deps[from]@, user, is_dev, false);
        lemma_manifest_uses_by_name(
            recorded(groups, deps[from]@, user, is_dev, false),
            deps,
            user,
            is_dev,
            from + 1,
        );
    }
}

/// The dependencies of a project are listed by name, each once.
pub proof fn lemma_usage_by_name(members: Seq<Member>, deps: Seq<String>, dev_deps: Seq<String>)
    ensures
        by_name(usage_of(members, deps, dev_deps)),
{
    let none = Seq::<UsageView>::empty();
    if members.len() > 1 {
        lemma_workspace_uses_by_name(none, members, 0);
    } else {
        let user = if members.len() == 1 {
            members[0].name@
        } else {
            Seq::empty()
        };
        lemma_manifest_uses_by_name(none, deps, user, false, 0);
        lemma_manifest_uses_by_name(manifest_uses(none, deps, user, false, 0), dev_deps, user, true, 0);
    }
}

fn has_member(members: &Vec<Member>, name: &str) -> (r: bool)
    ensures
        r == is_member(members@, name@),
{
    let mut i: usize = 0;
    while i < members.len()
        invariant
            i <= members@.len(),
            forall|j: int| 0 <= j < i ==> (#[trigger] members@[j]).name@ != name@,
        decreases members@.len() - i,
    {
        if str_eq(members[i].name.as_str(), name) {
            assert(members@[i as int].name@ == name@);
            return true;
        }
        i += 1;
    }
    false
}

fn record_manifest(groups: &mut Vec<Usage>, deps: &Vec<String>, user: &str, is_dev: bool)
    ensures
        usage_views(final(groups)@) == manifest_uses(
            usage_views(old(groups)@),
            deps@,
            user@,
            is_dev,
            0,
        ),
{
    let mut i: usize = 0;
    while i < deps.len()
        invariant
            i <= deps@.len(),
            manifest_uses(usage_views(groups@), deps@, user@, is_dev, i as int) == manifest_uses(
                usage_views(old(groups)@),
                deps@,
                user@,
                is_dev,
                0,
            ),
        decreases deps@.len() - i,
    {
        record_use(groups, deps[i].as_str(), user, is_dev, false);
        i += 1;
    }
}

/// Collects the dependencies of a project with the members that use them.
#[verifier::rlimit(40)]
pub fn dependency_usage(members: &Vec<Member>, deps: &Vec<String>, dev_deps: &Vec<String>) -> (r:
    Vec<Usage>)
    ensures
        usage_views(r@) == usage_of(members@, deps@, dev_deps@),
        by_name(usage_views(r@)),
{
    let mut groups: Vec<Usage> = Vec::new();
    assert(usage_views(groups@) =~= Seq::<UsageView>::empty());
    proof {
        lemma_usage_by_name(members@, deps@, dev_deps@);
    }
    if members.len() > 1 {
        let mut m: usize = 0;
        while m < members.len()
            invariant
                m <= members@.len(),
                workspace_uses(usage_views(groups@), members@, m as int) == workspace_uses(
                    Seq::empty(),
                    members@,
                    0,
                ),
            decreases members@.len() - m,
        {
            let member = &members[m];
            let ghost start = usage_views(groups@);
            let mut d: usize = 0;
            while d < member.dependencies.len()
                invariant
                    d <= member.dependencies@.len(),
                    m < members@.len(),
                    *member == members@[m as int],
                    member_uses(
                        usage_views(groups@),
                        members@,
                        member.name@,
                        member.dependencies@,
                        d as int,
                    ) == member_uses(start, members@, member.name@, member.dependencies@, 0),
                decreases member.dependencies@.len() - d,
            {
                let dep = &member.dependencies[d];
                if !dep.is_path && !has_member(members, dep.name.as_str()) {
                    record_use(
                        &mut groups,
                        dep.name.as_str(),
                        member.name.as_str(),
                        dep.is_dev,
                        true,
                    );
                }
                d += 1;
            }
            m += 1;
        }
    } else {
        let user: &str = if members.len() == 1 {
            members[0].name.as_str()
        } else {
            proof {
                reveal_strlit("");
            }
            ""
        };
        assert(members@.len() != 1 ==> user@ =~= Seq::<char>::empty());
        record_manifest(&mut groups, deps, user, false);
        record_manifest(&mut groups, dev_deps, user, true);
    }
    groups
}

/// A [`CrateInfo`] as plain values.
pub struct CrateInfoView {
    pub crate_type: CrateType,
    pub version: Option<Seq<char>>,
    pub description: Option<Seq<char>>,
    pub dev_dep: bool,
    pub name: Seq<char>,
    pub default_crate: bool,
    pub used_by: Seq<Seq<char>>,
}

/// The text of a string that may be absent.
pub open spec fn opt_view(s: Option<String>) -> Option<Seq<char>> {
    match s {
        Some(text) => Some(text@),
        None => None,
    }
}

/// A package of a listing as plain values.
pub open spec fn info_view(c: CrateInfo) -> CrateInfoView {
    CrateInfoView {
        crate_type: c.crate_type,
        version: opt_view(c.version),
        description: opt_view(c.description),
        dev_dep: c.dev_dep,
        name: c.name@,
        default_crate: c.default_crate,
        used_by: string_views(c.used_by@),
    }
}

/// The packages of a listing as plain values.
pub open spec fn info_views(v: Seq<CrateInfo>) -> Seq<CrateInfoView> {
    Seq::new(v.len(), |i: int| info_view(v[i]))
}

/// The entry of a workspace member. A member is the default package where
/// it is the only one and bears the default package's name.
pub open spec fn member_info(m: Member, alone: bool, default: Option<Seq<char>>) -> CrateInfoView {
    CrateInfoView {
        crate_type: CrateType::Workspace,
        version: Some(m.version@),
        description: opt_view(m.description),
        dev_dep: false,
        name: m.name@,
        default_crate: alone && default is Some && names_match(default->0, m.name@),
        used_by: Seq::empty(),
    }
}

/// The first of `packages[from..]` that goes by the name of a dependency.
pub open spec fn meta_of(packages: Seq<PackageMeta>, name: Seq<char>, from: int) -> Option<int>
    decreases packages.len() - from,
{
    if from < 0 || from >= packages.len() {
        None
    } else if names_match(packages[from].name@, name) {
        Some(from)
    } else {
        meta_of(packages, name, from + 1)
    }
}

/// The entry of a dependency, with the version and the description of the
/// package that it resolves to, where the project knows it.
pub open spec fn dependency_info(u: UsageView, packages: Seq<PackageMeta>) -> CrateInfoView {
    let meta = meta_of(packages, u.name, 0);
    CrateInfoView {
        crate_type: CrateType::Library,
        version: match meta {
            Some(i) => Some(packages[i].version@),
            None => None,
        },
        description: match meta {
            Some(i) => opt_view(packages[i].description),
            None => None,
        },
        dev_dep: u.dev_dep,
        name: u.name,
        default_crate: false,
        used_by: u.used_by,
    }
}

/// The name of the runtime package `i`.
pub open spec fn runtime_name(i: int) -> Seq<char> {
    if i == 0 {
        "std"@
    } else if i == 1 {
        "alloc"@
    } else if i == 2 {
        "core"@
    } else if i == 3 {
        "proc_macro"@
    } else {
        "test"@
    }
}

/// The description of the runtime package `i`.
pub open spec fn runtime_description(i: int) -> Seq<char> {
    if i == 0 {
        "The Rust Standard Library"@
    } else if i == 1 {
        "The Rust core allocation and collections library"@
    } else if i == 2 {
        "The Rust Core Library"@
    } else if i == 3 {
        "A support library for macro authors when defining new macros"@
    } else {
        "Support code for rustc's built in unit-test and micro-benchmarking framework"@
    }
}

/// The entry of the runtime package `i`.
pub open spec fn runtime_info(i: int, version: Seq<char>) -> CrateInfoView {
    CrateInfoView {
        crate_type: CrateType::Rust,
        version: Some(version),
        description: Some(runtime_description(i)),
        dev_dep: false,
        name: runtime_name(i),
        default_crate: false,
        used_by: Seq::empty(),
    }
}

/// The packages that a project can show: the members of its workspace, its
/// dependencies by name, and the five packages of the runtime where their
/// documentation is at hand.
pub open spec fn crate_infos(
    members: Seq<Member>,
    usage: Seq<UsageView>,
    packages: Seq<PackageMeta>,
    default: Option<Seq<char>>,
    runtime: Option<Seq<char>>,
) -> Seq<CrateInfoView> {
    Seq::new(members.len(), |i: int| member_info(members[i], members.len() <= 1, default))
        + Seq::new(usage.len(), |i: int| dependency_info(usage[i], packages)) + match runtime {
        Some(version) => Seq::new(5, |i: int| runtime_info(i, version)),
        None => Seq::empty(),
    }
}

fn copy_text(s: &String) -> (r: String)
    ensures
        r@ == s@,
{
    String::from_str(s.as_str())
}

fn copy_opt(s: &Option<String>) -> (r: Option<String>)
    ensures
        opt_view(r) == opt_view(*s),
{
    match s {
        Some(text) => Some(copy_text(text)),
        None => None,
    }
}

fn copy_texts(v: &Vec<String>) -> (r: Vec<String>)
    ensures
        string_views(r@) == string_views(v@),
{
    let mut out: Vec<String> = Vec::new();
    let mut i: usize = 0;
    while i < v.len()
        invariant
            i <= v@.len(),
            string_views(out@) == string_views(v@).take(i as int),
        decreases v@.len() - i,
    {
        let ghost before = string_views(out@);
        out.push(copy_text(&v[i]));
        assert(string_views(out@) =~= before.push(v@[i as int]@));
        assert(string_views(v@).take(i + 1) =~= string_views(v@).take(i as int).push(
            v@[i as int]@,
        ));
        i += 1;
    }
    assert(string_views(v@).take(i as int) =~= string_views(v@));
    out
}

fn find_meta(packages: &Vec<PackageMeta>, name: &str) -> (r: Option<usize>)
    ensures
        match r {
            Some(i) => meta_of(packages@, name@, 0) == Some(i as int) && i < packages@.len(),
            None => meta_of(packages@, name@, 0) is None,
        },
{
    let mut i: usize = 0;
    while i < packages.len()
        invariant
            i <= packages@.len(),
            meta_of(packages@, name@, 0) == meta_of(packages@, name@, i as int),
        decreases packages@.len() - i,
    {
        if eq_ignoring_dash_underscore(packages[i].name.as_str(), name) {
            return Some(i);
        }
        i += 1;
    }
    None
}

fn runtime_entry(i: usize, version: &str) -> (r: CrateInfo)
    requires
        i < 5,
    ensures
        info_view(r) == runtime_info(i as int, version@),
{
    let name: &str = if i == 0 {
        "std"
    } else if i == 1 {
        "alloc"
    } else if i == 2 {
        "core"
    } else if i == 3 {
        "proc_macro"
    } else {
        "test"
    };
    let description: &str = if i == 0 {
        "The Rust Standard Library"
    } else if i == 1 {
        "The Rust core allocation and collections library"
    } else if i == 2 {
        "The Rust Core Library"
    } else if i == 3 {
        "A support library for macro authors when defining new macros"
    } else {
        "Support code for rustc's built in unit-test and micro-benchmarking framework"
    };
    let used_by: Vec<String> = Vec::new();
    assert(string_views(used_by@) =~= Seq::<Seq<char>>::empty());
    CrateInfo {
        crate_type: CrateType::Rust,
        version: Some(String::from_str(version)),
        description: Some(String::from_str(description)),
        dev_dep: false,
        name: String::from_str(name),
        default_crate: false,
        used_by,
    }
}

/// Lists the packages that a project can show.
///
/// `default_crate` is the canonical name of the package of the working
/// directory; `runtime_version` the version of the toolchain whose
/// documentation of the runtime packages is at hand.
#[verifier::rlimit(40)]
pub fn generate_crate_info(
    members: &Vec<Member>,
    deps: &Vec<String>,
    dev_deps: &Vec<String>,
    packages: &Vec<PackageMeta>,
    default_crate: Option<&str>,
    runtime_version: Option<&str>,
) -> (r: Vec<CrateInfo>)
    ensures
        info_views(r@) == crate_infos(
            members@,
            usage_of(members@, deps@, dev_deps@),
            packages@,
            match default_crate {
                Some(d) => Some(d@),
                None => None,
            },
            match runtime_version {
                Some(v) => Some(v@),
                None => None,
            },
        ),
{
    let ghost default = match default_crate {
        Some(d) => Some(d@),
        None => None,
    };
    let alone = members.len() <= 1;
    let mut crates: Vec<CrateInfo> = Vec::new();
    let ghost first = Seq::new(
        members@.len(),
        |i: int| member_info(members@[i], members@.len() <= 1, default),
    );
    let mut m: usize = 0;
    assert(info_views(crates@) =~= first.take(0));
    while m < members.len()
        invariant
            m <= members@.len(),
            alone == (members@.len() <= 1),
            default == match default_crate {
                Some(d) => Some(d@),
                None => None,
            },
            first == Seq::new(
                members@.len(),
                |i: int| member_info(members@[i], members@.len() <= 1, default),
            ),
            info_views(crates@) == first.take(m as int),
        decreases members@.len() - m,
    {
        let member = &members[m];
        let is_default = alone && match default_crate {
            Some(d) => eq_ignoring_dash_underscore(d, member.name.as_str()),
            None => false,
        };
        let used_by: Vec<String> = Vec::new();
        assert(string_views(used_by@) =~= Seq::<Seq<char>>::empty());
        let ghost before = info_views(crates@);
        let entry = CrateInfo {
            crate_type: CrateType::Workspace,
            version: Some(copy_text(&member.version)),
            description: copy_opt(&member.description),
            dev_dep: false,
            name: copy_text(&member.name),
            default_crate: is_default,
            used_by,
        };
        assert(info_view(entry) == first[m as int]);
        crates.push(entry);
        assert(info_views(crates@) =~= before.push(first[m as int]));
        assert(first.take(m + 1) =~= first.take(m as int).push(first[m as int]));
        m += 1;
    }
    assert(first.take(m as int) =~= first);
    let usage = dependency_usage(members, deps, dev_deps);
    let ghost groups = usage_views(usage@);
    let ghost second = Seq::new(groups.len(), |i: int| dependency_info(groups[i], packages@));
    let mut u: usize = 0;
    assert(info_views(crates@) =~= first + second.take(0));
    while u < usage.len()
        invariant
            u <= usage@.len(),
            groups == usage_views(usage@),
            second == Seq::new(groups.len(), |i: int| dependency_info(groups[i], packages@)),
            info_views(crates@) == first + second.take(u as int),
        decreases usage@.len() - u,
    {
        let group = &usage[u];
        assert(groups[u as int].name == group.name@);
        let meta = find_meta(packages, group.name.as_str());
        let version = match meta {
            Some(i) => Some(copy_text(&packages[i].version)),
            None => None,
        };
        let description = match meta {
            Some(i) => copy_opt(&packages[i].description),
            None => None,
        };
        let ghost before = info_views(crates@);
        let entry = CrateInfo {
            crate_type: CrateType::Library,
            version,
            description,
            dev_dep: group.dev_dep,
            name: copy_text(&group.name),
            default_crate: false,
            used_by: copy_texts(&group.used_by),
        };
        assert(groups[u as int] == (UsageView {
            name: group.name@,
            used_by: string_views(group.used_by@),
            dev_dep: group.dev_dep,
        }));
        assert(info_view(entry) == second[u as int]);
        crates.push(entry);
        assert(info_views(crates@) =~= before.push(second[u as int]));
        assert(second.take(u + 1) =~= second.take(u as int).push(second[u as int]));
        assert(before.push(second[u as int]) =~= first + second.take(u + 1));
        u += 1;
    }
    assert(second.take(u as int) =~= second);
    match runtime_version {
        Some(version) => {
            let ghost third = Seq::new(5, |i: int| runtime_info(i, version@));
            let mut k: usize = 0;
            assert(info_views(crates@) =~= first + second + third.take(0));
            while k < 5
                invariant
                    k <= 5,
                    third == Seq::new(5, |i: int| runtime_info(i, version@)),
                    info_views(crates@) == first + second + third.take(k as int),
                decreases 5 - k,
            {
                let ghost before = info_views(crates@);
                let entry = runtime_entry(k, version);
                crates.push(entry);
                assert(info_views(crates@) =~= before.push(third[k as int]));
                assert(third.take(k + 1) =~= third.take(k as int).push(third[k as int]));
                assert(before.push(third[k as int]) =~= first + second + third.take(k + 1));
                k += 1;
            }
            assert(third.take(5) =~= third);
        },
        None => {
            assert(info_views(crates@) =~= first + second + Seq::<CrateInfoView>::empty());
        },
    }
    crates
}

/// Whether some name of the list goes by `name`, `-` and `_` taken for
/// one.
pub open spec fn goes_by(names: Seq<String>, name: Seq<char>) -> bool {
    exists|i: int| 0 <= i < names.len() && names_match((#[trigger] names[i])@, name)
}

pub(crate) fn any_goes_by(names: &Vec<String>, name: &str) -> (r: bool)
    ensures
        r == goes_by(names@, name@),
{
    let mut i: usize = 0;
    while i < names.len()
        invariant
            i <= names@.len(),
            forall|j: int| 0 <= j < i ==> !names_match((#[trigger] names@[j])@, name@),
        decreases names@.len() - i,
    {
        if eq_ignoring_dash_underscore(names[i].as_str(), name) {
            assert(names_match(names@[i as int]@, name@));
            return true;
        }
        i += 1;
    }
    false
}

/// Where the snapshot of a package is kept, and where the package comes
/// from.
///
/// A package of the runtime is found with the toolchain, under its own
/// name, where the toolchain's documentation is at hand. Any other package
/// that the project offers is found in the project's documentation
/// directory, under its name with `_` for `-`. The result is the name of the
/// file without its ending.
pub open spec fn snapshot_place(
    name: Seq<char>,
    runtime_docs: bool,
    available: Seq<String>,
    workspace: Seq<String>,
) -> Option<(Seq<char>, CrateType)> {
    if is_runtime_name(name) && runtime_docs {
        Some((name, CrateType::Rust))
    } else if goes_by(available, name) {
        Some(
            (
                underscored(name),
                if goes_by(workspace, name) {
                    CrateType::Workspace
                } else {
                    CrateType::Library
                },
            ),
        )
    } else {
        None
    }
}

/// Finds where the snapshot of a package is kept.
///
/// `available` holds the canonical names of the packages that the project
/// offers, `workspace` the names of the members of its workspace.
pub fn snapshot_file(
    name: &str,
    runtime_docs: bool,
    available: &Vec<String>,
    workspace: &Vec<String>,
) -> (r: Option<(String, CrateType)>)
    ensures
        match r {
            Some(found) => snapshot_place(name@, runtime_docs, available@, workspace@) == Some(
                (found.0@, found.1),
            ),
            None => snapshot_place(name@, runtime_docs, available@, workspace@) is None,
        },
{
    let runtime = str_eq(name, "std") || str_eq(name, "alloc") || str_eq(name, "core") || str_eq(
        name,
        "proc_macro",
    ) || str_eq(name, "test");
    if runtime && runtime_docs {
        return Some((String::from_str(name), CrateType::Rust));
    }
    if any_goes_by(available, name) {
        let chars = chars_of(name);
        let mut stem = String::from_str("");
        let mut i: usize = 0;
        proof {
            reveal_strlit("");
            reveal_strlit("_");
            assert(stem@ =~= underscored(name@).take(0));
        }
        while i < chars.len()
            invariant
                i <= chars@.len(),
                chars@ == name@,
                "_"@ == seq!['_'],
                stem@ == underscored(name@).take(i as int),
            decreases chars@.len() - i,
        {
            if chars[i] == '-' {
                stem.append("_");
            } else {
                stem.append(name.substring_char(i, i + 1));
            }
            assert(stem@ =~= underscored(name@).take(i + 1));
            i += 1;
        }
        assert(underscored(name@).take(i as int) =~= underscored(name@));
        let kind = if any_goes_by(workspace, name) {
            CrateType::Workspace
        } else {
            CrateType::Library
        };
        Some((stem, kind))
    } else {
        None
    }
}

/// The workspace member that the working directory stands in: the root
/// package, where the workspace has several members and the root package is
/// one of them.
pub open spec fn subcrate_of(root: Option<Seq<char>>, workspace: Seq<String>) -> Option<Seq<char>> {
    match root {
        Some(name) if workspace.len() > 1 && holds_name(workspace, name) => Some(name),
        _ => None,
    }
}

/// Detects whether the working directory stands in a member of a workspace
/// of several.
pub fn detect_subcrate_context<'a>(root: Option<&'a str>, workspace: &Vec<String>) -> (r: Option<
    &'a str,
>)
    ensures
        match r {
            Some(name) => subcrate_of(
                match root {
                    Some(x) => Some(x@),
                    None => None,
                },
                workspace@,
            ) == Some(name@),
            None => subcrate_of(
                match root {
                    Some(x) => Some(x@),
                    None => None,
                },
                workspace@,
            ) is None,
        },
{
    match root {
        None => None,
        Some(name) => {
            if workspace.len() <= 1 {
                return None;
            }
            let mut i: usize = 0;
            while i < workspace.len()
                invariant
                    i <= workspace@.len(),
                    workspace@.len() > 1,
                    root == Some(name),
                    forall|j: int| 0 <= j < i ==> (#[trigger] workspace@[j])@ != name@,
                decreases workspace@.len() - i,
            {
                if str_eq(workspace[i].as_str(), name) {
                    assert(workspace@[i as int]@ == name@);
                    return Some(name);
                }
                i += 1;
            }
            None
        },
    }
}

/// The members that use a dependency, `users[from..]`, with commas between
/// them; each marked where the dependency is one for development.
pub open spec fn users_text(users: Seq<Seq<char>>, dev: bool, from: int) -> Seq<char>
    decreases users.len() - from,
{
    if from < 0 || from >= users.len() {
        Seq::empty()
    } else {
        (if from > 0 {
            ", "@
        } else {
            Seq::empty()
        }) + users[from] + (if dev {
            " dev"@
        } else {
            Seq::empty()
        }) + users_text(users, dev, from + 1)
    }
}

/// A text on one line: each line feed gives way to a space.
pub open spec fn on_one_line(s: Seq<char>) -> Seq<char> {
    Seq::new(s.len(), |i: int| if s[i] == '\n' { ' ' } else { s[i] })
}

/// What a listing says of a package after its name.
///
/// The default package and the members of the workspace are marked as such.
/// A dependency shows its version, whether it is one for development, and,
/// where the listing is not for one member, the members that use it.
pub open spec fn note_of(c: CrateInfoView, scoped: bool) -> Seq<char> {
    if c.default_crate {
        " (workspace-local, aliased as \"crate\")"@
    } else if c.crate_type == CrateType::Workspace {
        " (workspace-local)"@
    } else {
        match c.version {
            Some(v) => " "@ + v + (if c.dev_dep {
                " (dev-dep)"@
            } else {
                Seq::empty()
            }) + (if !scoped && c.used_by.len() > 0 {
                " ("@ + users_text(c.used_by, c.dev_dep, 0) + ")"@
            } else {
                Seq::empty()
            }),
            None => Seq::empty(),
        }
    }
}

/// The lines of a listing for one package: its name with the note on it,
/// then its description on a line of its own.
pub open spec fn lines_of(c: CrateInfoView, scoped: bool) -> Seq<char> {
    "\u{2022} "@ + c.name + note_of(c, scoped) + "\n"@ + match c.description {
        Some(d) => "    "@ + on_one_line(d) + "\n"@,
        None => Seq::empty(),
    }
}

/// Writes the lines of a listing for one package.
#[verifier::rlimit(40)]
pub fn listing_lines(info: &CrateInfo, scoped: bool) -> (r: String)
    ensures
        r@ == lines_of(info_view(*info), scoped),
{
    let ghost c = info_view(*info);
    let mut out = String::from_str("\u{2022} ");
    out.append(info.name.as_str());
    let ghost head = out@;
    if info.default_crate {
        out.append(" (workspace-local, aliased as \"crate\")");
    } else if info.crate_type.is_workspace() {
        out.append(" (workspace-local)");
    } else {
        match &info.version {
            Some(version) => {
                out.append(" ");
                out.append(version.as_str());
                if info.dev_dep {
                    out.append(" (dev-dep)");
                }
                let ghost so_far = out@;
                if !scoped && info.used_by.len() > 0 {
                    out.append(" (");
                    let ghost open = out@;
                    let ghost users = string_views(info.used_by@);
                    let mut i: usize = 0;
                    assert(open + users_text(users, info.dev_dep, 0) =~= out@ + users_text(
                        users,
                        info.dev_dep,
                        0,
                    ));
                    while i < info.used_by.len()
                        invariant
                            i <= info.used_by@.len(),
                            users == string_views(info.used_by@),
                            out@ + users_text(users, info.dev_dep, i as int) == open + users_text(
                                users,
                                info.dev_dep,
                                0,
                            ),
                        decreases info.used_by@.len() - i,
                    {
                        let ghost before = out@;
                        if i > 0 {
                            out.append(", ");
                        }
                        out.append(info.used_by[i].as_str());
                        if info.dev_dep {
                            out.append(" dev");
                        }
                        assert(users[i as int] == info.used_by@[i as int]@);
                        assert(out@ + users_text(users, info.dev_dep, i + 1) =~= before
                            + users_text(users, info.dev_dep, i as int));
                        i += 1;
                    }
                    assert(out@ + Seq::<char>::empty() =~= out@);
                    out.append(")");
                    assert(out@ =~= so_far + (" ("@ + users_text(users, info.dev_dep, 0) + ")"@));
                } else {
                    assert(out@ =~= so_far + Seq::<char>::empty());
                }
                assert(out@ =~= head + note_of(c, scoped));
            },
            None => {
                assert(out@ =~= head + note_of(c, scoped));
            },
        }
    }
    assert(out@ =~= "\u{2022} "@ + c.name + note_of(c, scoped));
    out.append("\n");
    match &info.description {
        Some(description) => {
            out.append("    ");
            let chars = chars_of(description.as_str());
            let ghost start = out@;
            let ghost flat = on_one_line(description@);
            let mut i: usize = 0;
            proof {
                reveal_strlit(" ");
                assert(out@ =~= start + flat.take(0));
            }
            while i < chars.len()
                invariant
                    i <= chars@.len(),
                    chars@ == description@,
                    " "@ == seq![' '],
                    flat == on_one_line(description@),
                    out@ == start + flat.take(i as int),
                decreases chars@.len() - i,
            {
                if chars[i] == '\n' {
                    out.append(" ");
                } else {
                    out.append(description.as_str().substring_char(i, i + 1));
                }
                assert(out@ =~= start + flat.take(i + 1));
                i += 1;
            }
            assert(flat.take(i as int) =~= flat);
            out.append("\n");
            assert(out@ =~= lines_of(c, scoped));
        },
        None => {
            assert(out@ =~= lines_of(c, scoped));
        },
    }
    out
}

} // verus!
