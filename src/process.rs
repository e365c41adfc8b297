//! The process forest: records, the flat enumeration they are built from, and
//! the builder that links each record under its parent.
use vstd::prelude::*;
use vstd::string::*;

verus! {

/// One process as the process source enumerates it, before any linking.
pub struct RawProcess {
    pub pid: u32,
    /// The parent's pid, or `None` for a process without a parent.
    pub parent: Option<u32>,
    /// `None` where the name could not be read.
    pub name: Option<String>,
    /// CPU usage in hundredths of a percent of one core (a fully busy core
    /// reads 10000), summed over all cores.
    pub cpu_usage: u64,
    /// Resident memory in bytes.
    pub memory_bytes: u64,
    /// `None` where the executable path could not be read.
    pub exe: Option<String>,
    /// `None` where the owner could not be read.
    pub user_id: Option<u32>,
}

/// An account known to the system: its id and its name.
pub struct UserEntry {
    pub uid: u32,
    pub name: String,
}

/// One process of a snapshot, with the processes that it started.
pub struct ProcessInfo {
    pub pid: u32,
    /// `0` for a process without a parent.
    pub parent_pid: u32,
    pub name: String,
    /// CPU usage in hundredths of a percent of the whole machine.
    pub cpu: u64,
    /// Resident memory in KiB.
    pub memory: u64,
    pub exe: String,
    pub user: String,
    /// The processes that this one started, each naming it as parent.
    pub child: Vec<ProcessInfo>,
}

/// One complete capture: the process forest and whole-system usage.
pub struct SysStats {
    pub processes: Vec<ProcessInfo>,
    /// Whole-system CPU usage in hundredths of a percent.
    pub cpu: u64,
    /// Share of memory in use, in hundredths of a percent.
    pub mem: u128,
}

/// What one query of the process source returns.
pub struct Enumeration {
    pub processes: Vec<RawProcess>,
    /// The accounts known to the system.
    pub users: Vec<UserEntry>,
    /// The number of logical cores.
    pub cores: u32,
    /// Whole-system CPU usage in hundredths of a percent.
    pub cpu: u64,
    /// Memory in use, in bytes.
    pub used_memory: u64,
    /// Installed memory, in bytes.
    pub total_memory: u64,
}

/// Why an enumeration gave no snapshot.
#[derive(Debug, Clone, Copy, PartialEq, Eq, Structural)]
pub enum SnapshotError {
    /// The process source could not be queried.
    AcquisitionFailed,
    /// Two entries carry the same pid.
    DuplicatePid,
}

/// The records of a forest in pre-order: each record, then its descendants.
pub open spec fn flatten(forest: Seq<ProcessInfo>) -> Seq<ProcessInfo>
    decreases forest,
{
    if forest.len() == 0 {
        Seq::empty()
    } else {
        flatten(forest.drop_last()) + flatten_node(forest.last())
    }
}

/// A record followed by its descendants in pre-order.
pub open spec fn flatten_node(p: ProcessInfo) -> Seq<ProcessInfo>
    decreases p,
{
    seq![p] + flatten(p.child@)
}

/// The pids of a sequence of records.
pub open spec fn pids(s: Seq<ProcessInfo>) -> Set<u32> {
    s.map_values(|p: ProcessInfo| p.pid).to_set()
}

/// The pids of an enumeration.
pub open spec fn raw_pids(s: Seq<RawProcess>) -> Set<u32> {
    s.map_values(|e: RawProcess| e.pid).to_set()
}

/// Every child of `p`, at any depth, names its containing record as parent.
pub open spec fn linked(p: ProcessInfo) -> bool
    decreases p,
{
    forall|c: int|
        0 <= c < p.child@.len() ==> (#[trigger] p.child@[c]).parent_pid == p.pid && linked(
            p.child@[c],
        )
}

/// No two entries share a pid.
pub open spec fn pids_unique(entries: Seq<RawProcess>) -> bool {
    forall|a: int, b: int|
        0 <= a < entries.len() && 0 <= b < entries.len() && a != b ==> (#[trigger] entries[a]).pid
            != (#[trigger] entries[b]).pid
}

/// Entry `j` names a parent that is another entry of the same enumeration.
pub open spec fn has_parent_entry(entries: Seq<RawProcess>, j: int) -> bool {
    match entries[j].parent {
        Some(q) => exists|k: int| 0 <= k < entries.len() && k != j && (#[trigger] entries[k]).pid == q,
        None => false,
    }
}

/// The index of the entry that entry `j` names as its parent.
pub open spec fn parent_index(entries: Seq<RawProcess>, j: int) -> int {
    choose|k: int| 0 <= k < entries.len() && k != j && (#[trigger] entries[k]).pid == entries[j].parent->0
}

/// Following parent links from entry `j`, an entry without a listed parent
/// is reached within `steps` links.
pub open spec fn reaches_top(entries: Seq<RawProcess>, j: int, steps: nat) -> bool
    decreases steps,
{
    if !has_parent_entry(entries, j) {
        true
    } else if steps == 0 {
        false
    } else {
        reaches_top(entries, parent_index(entries, j), (steps - 1) as nat)
    }
}

/// The parent links from entry `j` end at an entry without a listed parent:
/// they do not run in a circle.
pub open spec fn anchored(entries: Seq<RawProcess>, j: int) -> bool {
    exists|steps: nat| reaches_top(entries, j, steps)
}

/// `roots` is the forest of the enumeration `entries`:
/// - no entry is lost or doubled: the records, at any depth, are as many as
///   the entries and carry the same pids;
/// - each record holds what the entry with its pid says (see `matches_entry`);
/// - every child names its containing record as parent;
/// - an entry whose parent is not listed is a root;
/// - every other root lies on a circle of parent links, so each entry whose
///   parent links end at an unlisted parent stands under its parent;
/// - roots whose parent is not listed come first, and the roots of each
///   group, like the children of every record, keep the order of the entries;
/// - the forest has no more levels than entries.
pub open spec fn is_forest_of(
    roots: Seq<ProcessInfo>,
    entries: Seq<RawProcess>,
    users: Seq<UserEntry>,
    cores: u32,
) -> bool {
    let f = flatten(roots);
    &&& f.len() == entries.len()
    &&& pids(f) == raw_pids(entries)
    &&& forall|m: int, k: int|
        0 <= m < f.len() && 0 <= k < entries.len() && (#[trigger] f[m]).pid == (
        #[trigger] entries[k]).pid ==> matches_entry(f[m], entries[k], users, cores)
    &&& forall|r: int| 0 <= r < roots.len() ==> linked(#[trigger] roots[r])
    &&& forall|k: int|
        0 <= k < entries.len() && !has_parent_entry(entries, k) ==> exists|r: int|
            0 <= r < roots.len() && (#[trigger] roots[r]).pid == entries[k].pid
    &&& forall|r: int, k: int|
        0 <= r < roots.len() && 0 <= k < entries.len() && (#[trigger] roots[r]).pid == (
        #[trigger] entries[k]).pid ==> !has_parent_entry(entries, k) || !anchored(entries, k)
    &&& forall|r: int| 0 <= r < roots.len() ==> children_in_order(#[trigger] roots[r], entries)
    &&& forall|a: int, b: int|
        0 <= a < b < roots.len() ==> root_rank(entries, entry_index(entries, (#[trigger] roots[a]).pid))
            < root_rank(entries, entry_index(entries, (#[trigger] roots[b]).pid))
    &&& forest_height(roots) <= entries.len()
}

/// The position of the entry with pid `pid`.
pub open spec fn entry_index(entries: Seq<RawProcess>, pid: u32) -> int {
    choose|k: int| 0 <= k < entries.len() && (#[trigger] entries[k]).pid == pid
}

/// In `p`'s subtree, the children of every record stand in the order of
/// their entries.
pub open spec fn children_in_order(p: ProcessInfo, entries: Seq<RawProcess>) -> bool
    decreases p,
{
    &&& forall|a: int, b: int|
        0 <= a < b < p.child@.len() ==> entry_index(entries, (#[trigger] p.child@[a]).pid)
            < entry_index(entries, (#[trigger] p.child@[b]).pid)
    &&& forall|c: int| 0 <= c < p.child@.len() ==> children_in_order(#[trigger] p.child@[c], entries)
}

/// Where the record of entry `k` goes among the roots: roots whose parent is
/// not listed come first, each group in the order of the entries.
pub open spec fn root_rank(entries: Seq<RawProcess>, k: int) -> int {
    if has_parent_entry(entries, k) {
        entries.len() + k
    } else {
        k
    }
}

proof fn lemma_entry_index(entries: Seq<RawProcess>, k: int)
    requires
        pids_unique(entries),
        0 <= k < entries.len(),
    ensures
        entry_index(entries, entries[k].pid) == k,
{
    assert(entries[k].pid == entries[k].pid);
}

/// Every entry whose parent entry is placed is placed too.
pub open spec fn closed_under_children(entries: Seq<RawProcess>, placed: Seq<bool>) -> bool {
    forall|a: int, b: int|
        0 <= a < entries.len() && 0 <= b < entries.len() && b != a && placed[a] && (
        #[trigger] entries[b]).parent == Some((#[trigger] entries[a]).pid) ==> placed[b]
}

proof fn lemma_anchored_placed(entries: Seq<RawProcess>, placed: Seq<bool>, j: int, steps: nat)
    requires
        0 <= j < entries.len(),
        placed.len() == entries.len(),
        reaches_top(entries, j, steps),
        forall|k: int| 0 <= k < entries.len() && !has_parent_entry(entries, k) ==> #[trigger] placed[k],
        closed_under_children(entries, placed),
    ensures
        placed[j],
    decreases steps,
{
    if has_parent_entry(entries, j) {
        let p = parent_index(entries, j);
        lemma_anchored_placed(entries, placed, p, (steps - 1) as nat);
        assert(entries[j].parent == Some(entries[p].pid));
    }
}

proof fn lemma_closure_kept(entries: Seq<RawProcess>, before: Seq<bool>, after: Seq<bool>, cidx: Seq<int>)
    requires
        before.len() == entries.len(),
        after.len() == entries.len(),
        closed_under_children(entries, before),
        forall|k: int| 0 <= k < entries.len() ==> #[trigger] after[k] == (before[k] || cidx.contains(k)),
        forall|m: int, k: int|
            0 <= m < cidx.len() && 0 <= k < entries.len() && k != cidx[m] && (
            #[trigger] entries[k]).parent == Some(entries[#[trigger] cidx[m]].pid) ==> after[k],
    ensures
        closed_under_children(entries, after),
{
    assert forall|a: int, b: int|
        0 <= a < entries.len() && 0 <= b < entries.len() && b != a && after[a] && (
        #[trigger] entries[b]).parent == Some((#[trigger] entries[a]).pid) implies after[b] by {
        if !before[a] {
            let m = choose|m: int| 0 <= m < cidx.len() && cidx[m] == a;
            assert(entries[b].parent == Some(entries[cidx[m]].pid));
        } else {
            assert(before[b]);
        }
    }
}

pub open spec fn unknown_text() -> Seq<char> {
    seq!['U', 'n', 'k', 'n', 'o', 'w', 'n']
}

/// A field that could be read, or `Unknown`.
pub open spec fn text_or_unknown(o: Option<String>) -> Seq<char> {
    match o {
        Some(s) => s@,
        None => unknown_text(),
    }
}

/// The name of the first account with id `uid`, if any.
pub open spec fn lookup_user(users: Seq<UserEntry>, uid: u32) -> Option<Seq<char>>
    decreases users.len(),
{
    if users.len() == 0 {
        None
    } else if users[0].uid == uid {
        Some(users[0].name@)
    } else {
        lookup_user(users.drop_first(), uid)
    }
}

/// The owner's name, or `Unknown` where the owner or its account is unknown.
pub open spec fn owner_text(uid: Option<u32>, users: Seq<UserEntry>) -> Seq<char> {
    match uid {
        Some(u) => match lookup_user(users, u) {
            Some(n) => n,
            None => unknown_text(),
        },
        None => unknown_text(),
    }
}

/// Usage spread over the machine's cores; a count of zero is read as one.
pub open spec fn per_machine(usage: u64, cores: u32) -> u64 {
    if cores == 0 {
        usage
    } else {
        (usage / (cores as u64)) as u64
    }
}

/// Record `p` holds what entry `e` says, with every gap filled by `Unknown`.
pub open spec fn matches_entry(p: ProcessInfo, e: RawProcess, users: Seq<UserEntry>, cores: u32) -> bool {
    &&& p.pid == e.pid
    &&& p.parent_pid == match e.parent {
        Some(q) => q,
        None => 0u32,
    }
    &&& p.name@ == text_or_unknown(e.name)
    &&& p.cpu == per_machine(e.cpu_usage, cores)
    &&& p.memory == e.memory_bytes / 1024
    &&& p.exe@ == text_or_unknown(e.exe)
    &&& p.user@ == owner_text(e.user_id, users)
}

/// How many entries are still unplaced.
pub open spec fn count_unplaced(s: Seq<bool>) -> nat
    decreases s.len(),
{
    if s.len() == 0 {
        0
    } else {
        count_unplaced(s.drop_last()) + if s.last() {
            0nat
        } else {
            1nat
        }
    }
}

/// The number of levels of a record's subtree, itself included.
pub open spec fn height(p: ProcessInfo) -> nat
    decreases p,
{
    1 + forest_height(p.child@)
}

/// The number of levels of a forest.
pub open spec fn forest_height(s: Seq<ProcessInfo>) -> nat
    decreases s,
{
    if s.len() == 0 {
        0
    } else {
        let a = forest_height(s.drop_last());
        let b = height(s.last());
        if a > b {
            a
        } else {
            b
        }
    }
}

/// No tree of a forest is taller than the forest.
pub(crate) proof fn lemma_member_height(s: Seq<ProcessInfo>, j: int)
    requires
        0 <= j < s.len(),
    ensures
        height(s[j]) <= forest_height(s),
    decreases s.len(),
{
    if j < s.len() - 1 {
        lemma_member_height(s.drop_last(), j);
    }
}

/// A forest has no more levels than records.
proof fn lemma_height_within_size(s: Seq<ProcessInfo>)
    ensures
        forest_height(s) <= flatten(s).len(),
    decreases s,
{
    if s.len() > 0 {
        lemma_height_within_size(s.drop_last());
        lemma_height_within_size(s.last().child@);
        assert(flatten_node(s.last()).len() == 1 + flatten(s.last().child@).len());
        assert(height(s.last()) == 1 + forest_height(s.last().child@));
    }
}

proof fn lemma_place_one(s: Seq<bool>, k: int)
    requires
        0 <= k < s.len(),
        !s[k],
    ensures
        count_unplaced(s.update(k, true)) + 1 == count_unplaced(s),
    decreases s.len(),
{
    if k == s.len() - 1 {
        assert(s.update(k, true).drop_last() =~= s.drop_last());
    } else {
        lemma_place_one(s.drop_last(), k);
        assert(s.update(k, true).drop_last() =~= s.drop_last().update(k, true));
    }
}

proof fn lemma_flatten_push(s: Seq<ProcessInfo>, c: ProcessInfo)
    ensures
        flatten(s.push(c)) == flatten(s) + flatten_node(c),
{
    assert(s.push(c).drop_last() =~= s);
}

fn unknown() -> (r: String)
    ensures
        r@ == unknown_text(),
{
    let r = String::from_str("Unknown");
    proof {
        reveal_strlit("Unknown");
        assert(r@ =~= unknown_text());
    }
    r
}

fn text_or_unknown_exec(o: &Option<String>) -> (r: String)
    ensures
        r@ == text_or_unknown(*o),
{
    match o {
        Some(s) => s.clone(),
        None => unknown(),
    }
}

/// The name of the first account in `users` whose id is `uid`.
pub fn find_user(users: &Vec<UserEntry>, uid: u32) -> (r: Option<String>)
    ensures
        match r {
            Some(n) => lookup_user(users@, uid) == Some(n@),
            None => lookup_user(users@, uid) is None,
        },
{
    let mut k: usize = 0;
    assert(users@.subrange(0, users@.len() as int) =~= users@);
    while k < users.len()
        invariant
            k <= users@.len(),
            lookup_user(users@, uid) == lookup_user(users@.subrange(k as int, users@.len() as int), uid),
        decreases users@.len() - k,
    {
        let ghost rest = users@.subrange(k as int, users@.len() as int);
        if users[k].uid == uid {
            return Some(users[k].name.clone());
        }
        assert(rest.drop_first() =~= users@.subrange(k + 1, users@.len() as int));
        k = k + 1;
    }
    None
}

/// The record of one entry, without children.
fn make_info(e: &RawProcess, users: &Vec<UserEntry>, cores: u32) -> (p: ProcessInfo)
    ensures
        matches_entry(p, *e, users@, cores),
        p.child@.len() == 0,
{
    let parent_pid = match e.parent {
        Some(q) => q,
        None => 0,
    };
    let user = match e.user_id {
        Some(u) => match find_user(users, u) {
            Some(n) => n,
            None => unknown(),
        },
        None => unknown(),
    };
    let cpu = if cores == 0 {
        e.cpu_usage
    } else {
        e.cpu_usage / (cores as u64)
    };
    ProcessInfo {
        pid: e.pid,
        parent_pid,
        name: text_or_unknown_exec(&e.name),
        cpu,
        memory: e.memory_bytes / 1024,
        exe: text_or_unknown_exec(&e.exe),
        user,
        child: Vec::new(),
    }
}

/// Whether entry `j` names a parent that is another entry of `entries`.
pub fn parent_is_listed(entries: &Vec<RawProcess>, j: usize) -> (r: bool)
    requires
        j < entries@.len(),
    ensures
        r == has_parent_entry(entries@, j as int),
{
    match entries[j].parent {
        Some(q) => {
            let mut k: usize = 0;
            while k < entries.len()
                invariant
                    j < entries@.len(),
                    entries@[j as int].parent == Some(q),
                    k <= entries@.len(),
                    forall|m: int| 0 <= m < k && m != j ==> (#[trigger] entries@[m]).pid != q,
                decreases entries@.len() - k,
            {
                if k != j && entries[k].pid == q {
                    return true;
                }
                k = k + 1;
            }
            false
        },
        None => false,
    }
}

/// Builds the subtree of entry `i` out of the entries not yet placed, and
/// marks each entry that it takes. The ghost result gives, in pre-order, the
/// index of the entry behind each record of the subtree.
fn build_node(
    entries: &Vec<RawProcess>,
    users: &Vec<UserEntry>,
    cores: u32,
    placed: &mut Vec<bool>,
    i: usize,
) -> (r: (ProcessInfo, Ghost<Seq<int>>))
    requires
        old(placed)@.len() == entries@.len(),
        i < entries@.len(),
        !old(placed)@[i as int],
        pids_unique(entries@),
    ensures
        children_in_order(r.0, entries@),
        final(placed)@.len() == entries@.len(),
        r.1@.len() == flatten_node(r.0).len(),
        r.1@[0] == i,
        forall|m: int|
            0 <= m < r.1@.len() ==> 0 <= #[trigger] r.1@[m] < entries@.len() && !old(placed)@[r.1@[m]]
                && matches_entry(flatten_node(r.0)[m], entries@[r.1@[m]], users@, cores),
        forall|m: int| 0 < m < r.1@.len() ==> has_parent_entry(entries@, #[trigger] r.1@[m]),
        r.1@.no_duplicates(),
        forall|k: int|
            0 <= k < entries@.len() ==> #[trigger] final(placed)@[k] == (old(placed)@[k]
                || r.1@.contains(k)),
        count_unplaced(final(placed)@) + r.1@.len() == count_unplaced(old(placed)@),
        forall|k: int|
            0 <= k < entries@.len() && k != i && (#[trigger] entries@[k]).parent == Some(
                entries@[i as int].pid,
            ) ==> final(placed)@[k],
        forall|m: int, k: int|
            0 <= m < r.1@.len() && 0 <= k < entries@.len() && k != r.1@[m] && (
            #[trigger] entries@[k]).parent == Some(entries@[#[trigger] r.1@[m]].pid)
                ==> final(placed)@[k],
        linked(r.0),
    decreases count_unplaced(old(placed)@),
{
    let n = entries.len();
    placed.set(i, true);
    proof {
        lemma_place_one(old(placed)@, i as int);
    }
    let mut node = make_info(&entries[i], users, cores);
    let ghost mut idx: Seq<int> = seq![i as int];
    let ghost mut kids: Seq<int> = Seq::empty();
    proof {
        assert(node.child@ =~= Seq::<ProcessInfo>::empty());
        assert(flatten(node.child@) =~= Seq::<ProcessInfo>::empty());
        assert(flatten_node(node) =~= seq![node]);
        assert forall|k: int| 0 <= k < n implies #[trigger] placed@[k] == (old(placed)@[k]
            || idx.contains(k)) by {
            if k == i {
                assert(idx[0] == k);
            }
        }
    }
    let mut j: usize = 0;
    while j < n
        invariant
            n == entries@.len(),
            placed@.len() == n,
            i < n,
            matches_entry(node, entries@[i as int], users@, cores),
            forall|c: int|
                0 <= c < node.child@.len() ==> (#[trigger] node.child@[c]).parent_pid == node.pid
                    && linked(node.child@[c]),
            idx.len() == flatten_node(node).len(),
            idx[0] == i,
            forall|m: int|
                0 <= m < idx.len() ==> 0 <= #[trigger] idx[m] < n && !old(placed)@[idx[m]]
                    && matches_entry(flatten_node(node)[m], entries@[idx[m]], users@, cores),
            forall|m: int| 0 < m < idx.len() ==> has_parent_entry(entries@, #[trigger] idx[m]),
            idx.no_duplicates(),
            forall|k: int| 0 <= k < n ==> #[trigger] placed@[k] == (old(placed)@[k] || idx.contains(k)),
            count_unplaced(placed@) + idx.len() == count_unplaced(old(placed)@),
            pids_unique(entries@),
            j <= n,
            kids.len() == node.child@.len(),
            forall|c: int|
                0 <= c < kids.len() ==> 0 <= #[trigger] kids[c] < j && entries@[kids[c]].pid
                    == node.child@[c].pid && children_in_order(node.child@[c], entries@),
            forall|a: int, b: int| 0 <= a < b < kids.len() ==> #[trigger] kids[a] < #[trigger] kids[b],
            forall|k: int|
                0 <= k < j && k != i && (#[trigger] entries@[k]).parent == Some(
                    entries@[i as int].pid,
                ) ==> placed@[k],
            forall|m: int, k: int|
                0 < m < idx.len() && 0 <= k < n && k != idx[m] && (#[trigger] entries@[k]).parent
                    == Some(entries@[#[trigger] idx[m]].pid) ==> placed@[k],
        decreases n - j,
    {
        let wanted = match entries[j].parent {
            Some(q) => q == entries[i].pid,
            None => false,
        };
        if wanted && !placed[j] {
            let ghost before = placed@;
            let ghost prev = node;
            let ghost prev_idx = idx;
            proof {
                assert(entries@[i as int].pid == entries@[j as int].parent->0);
                assert(has_parent_entry(entries@, j as int));
            }
            let (c, cidx) = build_node(entries, users, cores, placed, j);
            node.child.push(c);
            proof {
                let prev_kids = kids;
                kids = kids.push(j as int);
                assert(flatten_node(c)[0] == c);
                assert forall|q: int|
                    0 <= q < kids.len() implies 0 <= #[trigger] kids[q] < j + 1 && entries@[kids[q]].pid
                        == node.child@[q].pid && children_in_order(node.child@[q], entries@) by {
                    if q < prev_kids.len() {
                        assert(kids[q] == prev_kids[q]);
                        assert(node.child@[q] == prev.child@[q]);
                    }
                }
                assert(node.child@ =~= prev.child@.push(c));
                lemma_flatten_push(prev.child@, c);
                assert(flatten_node(node) =~= seq![node] + flatten(prev.child@) + flatten_node(c));
                assert(flatten_node(prev) =~= seq![prev] + flatten(prev.child@));
                idx = prev_idx + cidx@;
                let pl = prev_idx.len() as int;
                assert forall|m: int| 0 <= m < idx.len() implies 0 <= #[trigger] idx[m] < n
                    && !old(placed)@[idx[m]] && matches_entry(
                    flatten_node(node)[m],
                    entries@[idx[m]],
                    users@,
                    cores,
                ) by {
                    if m < pl {
                        assert(idx[m] == prev_idx[m]);
                        if m > 0 {
                            assert(flatten_node(node)[m] == flatten_node(prev)[m]);
                        }
                    } else {
                        assert(idx[m] == cidx@[m - pl]);
                        assert(flatten_node(node)[m] == flatten_node(c)[m - pl]);
                        assert(!before[cidx@[m - pl]]);
                    }
                }
                assert forall|m: int| 0 < m < idx.len() implies has_parent_entry(
                    entries@,
                    #[trigger] idx[m],
                ) by {
                    if m < pl {
                        assert(idx[m] == prev_idx[m]);
                    } else {
                        assert(idx[m] == cidx@[m - pl]);
                    }
                }
                assert forall|a: int, b: int|
                    0 <= a < idx.len() && 0 <= b < idx.len() && a != b implies idx[a]
                    != idx[b] by {
                    if a < pl && b >= pl {
                        assert(before[prev_idx[a]]);
                        assert(!before[cidx@[b - pl]]);
                    } else if a >= pl && b < pl {
                        assert(before[prev_idx[b]]);
                        assert(!before[cidx@[a - pl]]);
                    } else if a >= pl && b >= pl {
                        assert(cidx@[a - pl] != cidx@[b - pl]);
                    } else {
                        assert(prev_idx[a] != prev_idx[b]);
                    }
                }
                assert forall|k: int| 0 <= k < n implies #[trigger] placed@[k] == (old(placed)@[k]
                    || idx.contains(k)) by {
                    if cidx@.contains(k) {
                        let w = choose|w: int| 0 <= w < cidx@.len() && cidx@[w] == k;
                        assert(idx[pl + w] == k);
                    }
                    if prev_idx.contains(k) {
                        let w = choose|w: int| 0 <= w < prev_idx.len() && prev_idx[w] == k;
                        assert(idx[w] == k);
                    }
                    if idx.contains(k) {
                        let w = choose|w: int| 0 <= w < idx.len() && idx[w] == k;
                        if w < pl {
                            assert(prev_idx[w] == k);
                        } else {
                            assert(cidx@[w - pl] == k);
                        }
                    }
                }
                assert(cidx@[0] == j);
                assert(placed@[j as int]);
                assert forall|m: int, k: int|
                    0 < m < idx.len() && 0 <= k < n && k != idx[m] && (#[trigger] entries@[k]).parent
                        == Some(entries@[#[trigger] idx[m]].pid) implies placed@[k] by {
                    if m < pl {
                        assert(idx[m] == prev_idx[m]);
                        assert(before[k]);
                    } else {
                        assert(idx[m] == cidx@[m - pl]);
                    }
                }
            }
        }
        j = j + 1;
    }
    assert forall|m: int, k: int|
        0 <= m < idx.len() && 0 <= k < n && k != idx[m] && (#[trigger] entries@[k]).parent == Some(
            entries@[#[trigger] idx[m]].pid,
        ) implies placed@[k] by {
        if m == 0 {
            assert(idx[0] == i);
        }
    }
    proof {
        assert forall|a: int, b: int|
            0 <= a < b < node.child@.len() implies entry_index(entries@, (#[trigger] node.child@[a]).pid)
            < entry_index(entries@, (#[trigger] node.child@[b]).pid) by {
            lemma_entry_index(entries@, kids[a]);
            lemma_entry_index(entries@, kids[b]);
        }
        assert forall|c: int| 0 <= c < node.child@.len() implies children_in_order(
            #[trigger] node.child@[c],
            entries@,
        ) by {
            assert(0 <= kids[c] < n);
        }
    }
    (node, Ghost(idx))
}

proof fn lemma_none_unplaced(s: Seq<bool>)
    requires
        forall|k: int| 0 <= k < s.len() ==> s[k],
    ensures
        count_unplaced(s) == 0,
    decreases s.len(),
{
    if s.len() > 0 {
        lemma_none_unplaced(s.drop_last());
    }
}

/// Adds the subtree of entry `i` as a new root; the facts of the forest built
/// so far carry over to the longer forest.
proof fn lemma_add_root(
    entries: Seq<RawProcess>,
    users: Seq<UserEntry>,
    cores: u32,
    roots: Seq<ProcessInfo>,
    order: Seq<int>,
    before: Seq<bool>,
    after: Seq<bool>,
    c: ProcessInfo,
    cidx: Seq<int>,
)
    requires
        before.len() == entries.len(),
        after.len() == entries.len(),
        flatten(roots).len() == order.len(),
        forall|m: int|
            0 <= m < order.len() ==> 0 <= #[trigger] order[m] < entries.len() && matches_entry(
                flatten(roots)[m],
                entries[order[m]],
                users,
                cores,
            ),
        order.no_duplicates(),
        forall|k: int| 0 <= k < entries.len() ==> #[trigger] before[k] == order.contains(k),
        cidx.len() == flatten_node(c).len(),
        forall|m: int|
            0 <= m < cidx.len() ==> 0 <= #[trigger] cidx[m] < entries.len() && !before[cidx[m]]
                && matches_entry(flatten_node(c)[m], entries[cidx[m]], users, cores),
        cidx.no_duplicates(),
        forall|k: int| 0 <= k < entries.len() ==> #[trigger] after[k] == (before[k] || cidx.contains(k)),
    ensures
        flatten(roots.push(c)).len() == (order + cidx).len(),
        forall|m: int|
            0 <= m < (order + cidx).len() ==> 0 <= #[trigger] (order + cidx)[m] < entries.len()
                && matches_entry(flatten(roots.push(c))[m], entries[(order + cidx)[m]], users, cores),
        (order + cidx).no_duplicates(),
        forall|k: int| 0 <= k < entries.len() ==> #[trigger] after[k] == (order + cidx).contains(k),
{
    lemma_flatten_push(roots, c);
    let idx = order + cidx;
    let pl = order.len() as int;
    assert forall|m: int| 0 <= m < idx.len() implies 0 <= #[trigger] idx[m] < entries.len()
        && matches_entry(flatten(roots.push(c))[m], entries[idx[m]], users, cores) by {
        if m < pl {
            assert(idx[m] == order[m]);
        } else {
            assert(idx[m] == cidx[m - pl]);
        }
    }
    assert forall|a: int, b: int|
        0 <= a < idx.len() && 0 <= b < idx.len() && a != b implies idx[a] != idx[b] by {
        if a < pl && b >= pl {
            assert(before[order[a]]);
            assert(!before[cidx[b - pl]]);
        } else if a >= pl && b < pl {
            assert(before[order[b]]);
            assert(!before[cidx[a - pl]]);
        } else if a >= pl && b >= pl {
            assert(cidx[a - pl] != cidx[b - pl]);
        } else {
            assert(order[a] != order[b]);
        }
    }
    assert forall|k: int| 0 <= k < entries.len() implies #[trigger] after[k] == idx.contains(k) by {
        if cidx.contains(k) {
            let w = choose|w: int| 0 <= w < cidx.len() && cidx[w] == k;
            assert(idx[pl + w] == k);
        }
        if order.contains(k) {
            let w = choose|w: int| 0 <= w < order.len() && order[w] == k;
            assert(idx[w] == k);
        }
        if idx.contains(k) {
            let w = choose|w: int| 0 <= w < idx.len() && idx[w] == k;
            if w < pl {
                assert(order[w] == k);
            } else {
                assert(cidx[w - pl] == k);
            }
        }
    }
}

/// Links a flat enumeration into a forest. Each entry becomes one record
/// (gaps filled by `Unknown`), placed under the record of its parent; an
/// entry whose parent is not in the enumeration becomes a root. Entries whose
/// parent links run in a circle, which no live process table shows, become
/// roots as well, so that none is lost.
pub fn build_forest(entries: &Vec<RawProcess>, users: &Vec<UserEntry>, cores: u32) -> (roots: Vec<
    ProcessInfo,
>)
    requires
        pids_unique(entries@),
    ensures
        is_forest_of(roots@, entries@, users@, cores),
{
    let n = entries.len();
    let mut placed: Vec<bool> = Vec::new();
    let mut t: usize = 0;
    while t < n
        invariant
            n == entries@.len(),
            t <= n,
            placed@.len() == t,
            forall|k: int| 0 <= k < t ==> !#[trigger] placed@[k],
            count_unplaced(placed@) == t,
        decreases n - t,
    {
        let ghost prev = placed@;
        placed.push(false);
        assert(placed@.drop_last() =~= prev);
        t = t + 1;
    }
    let mut roots: Vec<ProcessInfo> = Vec::new();
    let ghost mut order: Seq<int> = Seq::empty();
    let ghost mut root_idx: Seq<int> = Seq::empty();
    let mut i: usize = 0;
    while i < n
        invariant
            n == entries@.len(),
            pids_unique(entries@),
            i <= n,
            placed@.len() == n,
            flatten(roots@).len() == order.len(),
            forall|m: int|
                0 <= m < order.len() ==> 0 <= #[trigger] order[m] < n && matches_entry(
                    flatten(roots@)[m],
                    entries@[order[m]],
                    users@,
                    cores,
                ),
            order.no_duplicates(),
            forall|k: int| 0 <= k < n ==> #[trigger] placed@[k] == order.contains(k),
            count_unplaced(placed@) + order.len() == n,
            forall|r: int| 0 <= r < roots@.len() ==> linked(#[trigger] roots@[r]),
            forall|k: int|
                0 <= k < i && !has_parent_entry(entries@, k) ==> exists|r: int|
                    0 <= r < roots@.len() && (#[trigger] roots@[r]).pid == entries@[k].pid,
            forall|k: int| i <= k < n && !has_parent_entry(entries@, k) ==> !#[trigger] placed@[k],
            forall|k: int| 0 <= k < i && !has_parent_entry(entries@, k) ==> #[trigger] placed@[k],
            closed_under_children(entries@, placed@),
            root_idx.len() == roots@.len(),
            forall|r: int|
                0 <= r < root_idx.len() ==> 0 <= #[trigger] root_idx[r] < i && roots@[r].pid
                    == entries@[root_idx[r]].pid && !has_parent_entry(entries@, root_idx[r]),
            forall|a: int, b: int|
                0 <= a < b < root_idx.len() ==> #[trigger] root_idx[a] < #[trigger] root_idx[b],
            forall|r: int| 0 <= r < roots@.len() ==> children_in_order(#[trigger] roots@[r], entries@),
        decreases n - i,
    {
        if !parent_is_listed(entries, i) {
            let ghost before = placed@;
            let ghost prev_roots = roots@;
            let (c, cidx) = build_node(entries, users, cores, &mut placed, i);
            roots.push(c);
            proof {
                lemma_add_root(entries@, users@, cores, prev_roots, order, before, placed@, c, cidx@);
                lemma_closure_kept(entries@, before, placed@, cidx@);
                assert(roots@ =~= prev_roots.push(c));
                order = order + cidx@;
                let prev_ri = root_idx;
                root_idx = root_idx.push(i as int);
                assert(flatten_node(c)[0] == c);
                assert forall|r: int| 0 <= r < root_idx.len() implies 0 <= #[trigger] root_idx[r] < i + 1
                    && roots@[r].pid == entries@[root_idx[r]].pid && !has_parent_entry(
                    entries@,
                    root_idx[r],
                ) && children_in_order(roots@[r], entries@) by {
                    if r < prev_ri.len() {
                        assert(root_idx[r] == prev_ri[r]);
                        assert(roots@[r] == prev_roots[r]);
                    }
                }
                assert forall|a: int, b: int|
                    0 <= a < b < root_idx.len() implies #[trigger] root_idx[a] < #[trigger] root_idx[b] by {
                    assert(root_idx[a] == prev_ri[a]);
                    if b < prev_ri.len() {
                        assert(root_idx[b] == prev_ri[b]);
                    }
                }
                assert(roots@[roots@.len() - 1] == c);
                assert forall|k: int|
                    i < k < n && !has_parent_entry(entries@, k) implies !#[trigger] placed@[k] by {
                    if cidx@.contains(k) {
                        let w = choose|w: int| 0 <= w < cidx@.len() && cidx@[w] == k;
                        assert(w != 0);
                    }
                }
                assert forall|k: int|
                    0 <= k <= i && !has_parent_entry(entries@, k) implies exists|r: int|
                        0 <= r < roots@.len() && (#[trigger] roots@[r]).pid == entries@[k].pid by {
                    if k == i {
                        assert(roots@[roots@.len() - 1].pid == entries@[k].pid);
                    } else {
                        let r = choose|r: int|
                            0 <= r < prev_roots.len() && (#[trigger] prev_roots[r]).pid
                                == entries@[k].pid;
                        assert(roots@[r] == prev_roots[r]);
                    }
                }
            }
        }
        i = i + 1;
    }
    let ghost placed1 = placed@;
    proof {
        assert forall|k: int| 0 <= k < n && anchored(entries@, k) implies #[trigger] placed1[k] by {
            let steps = choose|steps: nat| reaches_top(entries@, k, steps);
            lemma_anchored_placed(entries@, placed1, k, steps);
        }
    }
    assert forall|r: int| 0 <= r < root_idx.len() implies root_rank(entries@, #[trigger] root_idx[r]) < n + 0 by {
    }
    let mut i: usize = 0;
    while i < n
        invariant
            n == entries@.len(),
            pids_unique(entries@),
            i <= n,
            placed@.len() == n,
            placed1.len() == n,
            forall|k: int| 0 <= k < n && anchored(entries@, k) ==> #[trigger] placed1[k],
            forall|k: int| 0 <= k < n && placed1[k] ==> #[trigger] placed@[k],
            root_idx.len() == roots@.len(),
            forall|r: int|
                0 <= r < root_idx.len() ==> 0 <= #[trigger] root_idx[r] < n && roots@[r].pid
                    == entries@[root_idx[r]].pid && (!has_parent_entry(entries@, root_idx[r])
                    || !anchored(entries@, root_idx[r])),
            forall|r: int|
                0 <= r < root_idx.len() ==> root_rank(entries@, #[trigger] root_idx[r]) < n + i,
            forall|a: int, b: int|
                0 <= a < b < root_idx.len() ==> root_rank(entries@, #[trigger] root_idx[a]) < root_rank(
                    entries@,
                    #[trigger] root_idx[b],
                ),
            forall|r: int| 0 <= r < roots@.len() ==> children_in_order(#[trigger] roots@[r], entries@),
            flatten(roots@).len() == order.len(),
            forall|m: int|
                0 <= m < order.len() ==> 0 <= #[trigger] order[m] < n && matches_entry(
                    flatten(roots@)[m],
                    entries@[order[m]],
                    users@,
                    cores,
                ),
            order.no_duplicates(),
            forall|k: int| 0 <= k < n ==> #[trigger] placed@[k] == order.contains(k),
            count_unplaced(placed@) + order.len() == n,
            forall|r: int| 0 <= r < roots@.len() ==> linked(#[trigger] roots@[r]),
            forall|k: int|
                0 <= k < n && !has_parent_entry(entries@, k) ==> exists|r: int|
                    0 <= r < roots@.len() && (#[trigger] roots@[r]).pid == entries@[k].pid,
            forall|k: int| 0 <= k < i ==> #[trigger] placed@[k],
        decreases n - i,
    {
        if !placed[i] {
            let ghost before = placed@;
            let ghost prev_roots = roots@;
            assert(!placed1[i as int]);
            let (c, cidx) = build_node(entries, users, cores, &mut placed, i);
            roots.push(c);
            proof {
                lemma_add_root(entries@, users@, cores, prev_roots, order, before, placed@, c, cidx@);
                assert(roots@ =~= prev_roots.push(c));
                order = order + cidx@;
                let prev_ri = root_idx;
                root_idx = root_idx.push(i as int);
                assert(flatten_node(c)[0] == c);
                assert forall|r: int| 0 <= r < root_idx.len() implies 0 <= #[trigger] root_idx[r] < n
                    && roots@[r].pid == entries@[root_idx[r]].pid && (!has_parent_entry(
                    entries@,
                    root_idx[r],
                ) || !anchored(entries@, root_idx[r])) && root_rank(entries@, root_idx[r]) < n + i + 1
                    && children_in_order(roots@[r], entries@) by {
                    assert(roots@[r] == prev_roots.push(c)[r]);
                    if r < prev_ri.len() {
                        assert(root_idx[r] == prev_ri[r]);
                        assert(roots@[r] == prev_roots[r]);
                    } else {
                        assert(root_idx[r] == i);
                        assert(roots@[r] == c);
                        assert(reaches_top(entries@, i as int, 0) ==> anchored(entries@, i as int));
                    }
                }
                assert(reaches_top(entries@, i as int, 0) ==> anchored(entries@, i as int));
                assert(root_rank(entries@, i as int) == n + i);
                assert forall|a: int, b: int|
                    0 <= a < b < root_idx.len() implies root_rank(entries@, #[trigger] root_idx[a])
                    < root_rank(entries@, #[trigger] root_idx[b]) by {
                    assert(root_idx[a] == prev_ri[a]);
                    if b < prev_ri.len() {
                        assert(root_idx[b] == prev_ri[b]);
                    }
                }
                assert forall|k: int|
                    0 <= k < n && !has_parent_entry(entries@, k) implies exists|r: int|
                        0 <= r < roots@.len() && (#[trigger] roots@[r]).pid == entries@[k].pid by {
                    let r = choose|r: int|
                        0 <= r < prev_roots.len() && (#[trigger] prev_roots[r]).pid == entries@[k].pid;
                    assert(roots@[r] == prev_roots[r]);
                }
            }
        }
        i = i + 1;
    }
    proof {
        lemma_none_unplaced(placed@);
        let fl = flatten(roots@);
        assert forall|m: int, k: int|
            0 <= m < fl.len() && 0 <= k < n && (#[trigger] fl[m]).pid == (
            #[trigger] entries@[k]).pid implies matches_entry(fl[m], entries@[k], users@, cores) by {
            assert(entries@[order[m]].pid == entries@[k].pid);
        }
        let fp = fl.map_values(|p: ProcessInfo| p.pid);
        let ep = entries@.map_values(|e: RawProcess| e.pid);
        assert forall|x: u32| pids(fl).contains(x) <==> raw_pids(entries@).contains(x) by {
            if pids(fl).contains(x) {
                let m = choose|m: int| 0 <= m < fp.len() && #[trigger] fp[m] == x;
                assert(ep[order[m]] == x);
            }
            if raw_pids(entries@).contains(x) {
                let k = choose|k: int| 0 <= k < ep.len() && #[trigger] ep[k] == x;
                assert(placed@[k]);
                let m = choose|m: int| 0 <= m < order.len() && order[m] == k;
                assert(fp[m] == x);
            }
        }
        assert(pids(fl) =~= raw_pids(entries@));
        lemma_height_within_size(roots@);
        assert forall|r: int, k: int|
            0 <= r < roots@.len() && 0 <= k < n && (#[trigger] roots@[r]).pid == (
            #[trigger] entries@[k]).pid implies !has_parent_entry(entries@, k) || !anchored(
            entries@,
            k,
        ) by {
            let q = root_idx[r];
            assert(0 <= q < n);
            assert(entries@[q].pid == entries@[k].pid);
            assert(q == k);
        }
        assert forall|a: int, b: int|
            0 <= a < b < roots@.len() implies root_rank(
            entries@,
            entry_index(entries@, (#[trigger] roots@[a]).pid),
        ) < root_rank(entries@, entry_index(entries@, (#[trigger] roots@[b]).pid)) by {
            lemma_entry_index(entries@, root_idx[a]);
            lemma_entry_index(entries@, root_idx[b]);
        }
    }
    roots
}

/// Memory in use as hundredths of a percent of installed memory, rounded
/// down; `0` when none is installed.
pub open spec fn memory_share_of(used: u64, total: u64) -> int {
    if total == 0 {
        0
    } else {
        (used as int) * 10000 / (total as int)
    }
}

/// See `memory_share_of`.
pub fn memory_share(used: u64, total: u64) -> (r: u128)
    ensures
        r as int == memory_share_of(used, total),
{
    if total == 0 {
        0
    } else {
        let scaled: u128 = used as u128 * 10000;
        scaled / (total as u128)
    }
}

/// Whether no two entries share a pid.
pub fn pids_are_unique(entries: &Vec<RawProcess>) -> (r: bool)
    ensures
        r == pids_unique(entries@),
{
    let n = entries.len();
    let mut a: usize = 0;
    while a < n
        invariant
            n == entries@.len(),
            a <= n,
            forall|x: int, y: int|
                0 <= x < a && 0 <= y < n && x != y ==> (#[trigger] entries@[x]).pid
                    != (#[trigger] entries@[y]).pid,
        decreases n - a,
    {
        let mut b: usize = 0;
        while b < n
            invariant
                n == entries@.len(),
                a < n,
                b <= n,
                forall|x: int, y: int|
                    0 <= x < a && 0 <= y < n && x != y ==> (#[trigger] entries@[x]).pid
                        != (#[trigger] entries@[y]).pid,
                forall|y: int| 0 <= y < b && y != a ==> entries@[a as int].pid != (#[trigger] entries@[y]).pid,
            decreases n - b,
        {
            if b != a && entries[a].pid == entries[b].pid {
                return false;
            }
            b = b + 1;
        }
        a = a + 1;
    }
    true
}

impl SysStats {
    /// The snapshot held before the first capture arrives: no processes, no usage.
    pub fn empty() -> (r: SysStats)
        ensures
            r.processes@.len() == 0,
            r.cpu == 0,
            r.mem == 0,
            forest_height(r.processes@) == 0,
    {
        SysStats { processes: Vec::new(), cpu: 0, mem: 0 }
    }
}

/// Turns one enumeration into a snapshot: the forest of `build_forest`, the
/// whole-system CPU usage as given, and the share of memory in use. An
/// enumeration in which two entries share a pid gives `DuplicatePid`.
pub fn build_snapshot(e: &Enumeration) -> (r: Result<SysStats, SnapshotError>)
    ensures
        !pids_unique(e.processes@) ==> r == Err::<SysStats, SnapshotError>(
            SnapshotError::DuplicatePid,
        ),
        pids_unique(e.processes@) ==> (r matches Ok(st) && is_forest_of(
            st.processes@,
            e.processes@,
            e.users@,
            e.cores,
        ) && forest_height(st.processes@) <= usize::MAX && st.cpu == e.cpu && st.mem as int
            == memory_share_of(e.used_memory, e.total_memory)),
{
    if !pids_are_unique(&e.processes) {
        return Err(SnapshotError::DuplicatePid);
    }
    let processes = build_forest(&e.processes, &e.users, e.cores);
    let mem = memory_share(e.used_memory, e.total_memory);
    let n = e.processes.len();
    assert(forest_height(processes@) <= n);
    let st = SysStats { processes, cpu: e.cpu, mem };
    Ok(st)
}

/// The number of levels of a forest, or `usize::MAX` for one with at least
/// that many.
fn capped_height(level: &Vec<ProcessInfo>) -> (h: usize)
    ensures
        h as int == if forest_height(level@) < usize::MAX {
            forest_height(level@) as int
        } else {
            usize::MAX as int
        },
    decreases level@,
{
    let mut best: usize = 0;
    let mut i: usize = 0;
    while i < level.len()
        invariant
            i <= level@.len(),
            best as int == if forest_height(level@.take(i as int)) < usize::MAX {
                forest_height(level@.take(i as int)) as int
            } else {
                usize::MAX as int
            },
        decreases level@.len() - i,
    {
        proof {
            assert(decreases_to!(level@ => level@[i as int]));
        }
        let c = capped_height(&level[i].child);
        let h: usize = if c == usize::MAX {
            usize::MAX
        } else {
            c + 1
        };
        if h > best {
            best = h;
        }
        proof {
            assert(level@.take(i + 1).drop_last() =~= level@.take(i as int));
            assert(level@.take(i + 1).last() == level@[i as int]);
            assert(height(level@[i as int]) == 1 + forest_height(level@[i as int].child@));
        }
        i = i + 1;
    }
    assert(level@.take(level@.len() as int) =~= level@);
    best
}

/// Whether the forest has fewer than `usize::MAX` levels, so that every depth
/// of its tree view fits in a `usize`.
pub fn tree_view_fits(forest: &Vec<ProcessInfo>) -> (r: bool)
    ensures
        r == (forest_height(forest@) < usize::MAX),
{
    capped_height(forest) < usize::MAX
}

} // verus!
