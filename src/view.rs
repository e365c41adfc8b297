//! Projections of a process forest for display: a sorted, filtered table of
//! every record, and an indented tree that opens only the expanded records.
use vstd::prelude::*;
use vstd::string::*;
use crate::process::{ProcessInfo, flatten, flatten_node, forest_height, height, lemma_member_height};
use std::collections::HashSet;

verus! {

/// The key that rows are ordered by.
#[derive(Debug, Clone, Copy, PartialEq, Eq, Structural)]
pub enum SortCriterion {
    Cpu,
    Memory,
    Name,
}

/// The direction of the order.
#[derive(Debug, Clone, Copy, PartialEq, Eq, Structural)]
pub enum SortDirection {
    Ascending,
    Descending,
}

/// Which records are shown, by owner.
#[derive(Debug, Clone, Copy, PartialEq, Eq, Structural)]
pub enum ProcessFilter {
    All,
    OwnedByCurrentUser,
    NotOwnedByCurrentUser,
}

/// The records that a sequence of references points to.
pub open spec fn records(s: Seq<&ProcessInfo>) -> Seq<ProcessInfo> {
    s.map_values(|p: &ProcessInfo| *p)
}

/// How the forest is shown.
#[derive(Debug, Clone, Copy, PartialEq, Eq, Structural)]
pub enum ViewMode {
    Table,
    Tree,
}

/// Whether `p` is shown under `filter` for the account named `user`.
pub open spec fn passes(p: ProcessInfo, filter: ProcessFilter, user: Seq<char>) -> bool {
    match filter {
        ProcessFilter::All => true,
        ProcessFilter::OwnedByCurrentUser => p.user@ == user,
        ProcessFilter::NotOwnedByCurrentUser => p.user@ != user,
    }
}

/// Lexicographic comparison by code point: negative, zero or positive as `a`
/// sorts before, equal to or after `b`. Code-point order is the byte order
/// of the UTF-8 encodings, the order of `str`.
pub open spec fn lex_cmp(a: Seq<char>, b: Seq<char>) -> int
    decreases a.len(),
{
    if a.len() == 0 {
        if b.len() == 0 {
            0
        } else {
            -1
        }
    } else if b.len() == 0 {
        1
    } else if a[0] < b[0] {
        -1
    } else if a[0] > b[0] {
        1
    } else {
        lex_cmp(a.drop_first(), b.drop_first())
    }
}

pub open spec fn num_cmp(a: int, b: int) -> int {
    if a < b {
        -1
    } else if a > b {
        1
    } else {
        0
    }
}

/// Compares two records by the key of `crit`.
pub open spec fn key_cmp(a: ProcessInfo, b: ProcessInfo, crit: SortCriterion) -> int {
    match crit {
        SortCriterion::Cpu => num_cmp(a.cpu as int, b.cpu as int),
        SortCriterion::Memory => num_cmp(a.memory as int, b.memory as int),
        SortCriterion::Name => lex_cmp(a.name@, b.name@),
    }
}

/// Whether rows run from the smallest key up. Numeric keys follow the
/// direction's name; for names `Ascending` runs from the largest name down
/// and `Descending` from the smallest up.
pub open spec fn smallest_first(crit: SortCriterion, dir: SortDirection) -> bool {
    match crit {
        SortCriterion::Name => dir == SortDirection::Descending,
        _ => dir == SortDirection::Ascending,
    }
}

/// Whether `a` may stand before `b`: its key is not beyond `b`'s in the
/// chosen order.
pub open spec fn may_precede(a: ProcessInfo, b: ProcessInfo, crit: SortCriterion, dir: SortDirection) -> bool {
    if smallest_first(crit, dir) {
        key_cmp(a, b, crit) <= 0
    } else {
        key_cmp(b, a, crit) <= 0
    }
}

/// Where `x` goes in `s`: after the last element that may precede it.
pub open spec fn insert_pos(s: Seq<ProcessInfo>, x: ProcessInfo, crit: SortCriterion, dir: SortDirection) -> int
    decreases s.len(),
{
    if s.len() == 0 {
        0
    } else if may_precede(s.last(), x, crit, dir) {
        s.len() as int
    } else {
        insert_pos(s.drop_last(), x, crit, dir)
    }
}

/// `s` in the chosen order; records with equal keys keep their order in `s`.
pub open spec fn sorted_by(s: Seq<ProcessInfo>, crit: SortCriterion, dir: SortDirection) -> Seq<ProcessInfo>
    decreases s.len(),
{
    if s.len() == 0 {
        s
    } else {
        let t = sorted_by(s.drop_last(), crit, dir);
        t.insert(insert_pos(t, s.last(), crit, dir), s.last())
    }
}

/// The records of `s` that pass the filter, in their order.
pub open spec fn kept(s: Seq<ProcessInfo>, filter: ProcessFilter, user: Seq<char>) -> Seq<ProcessInfo>
    decreases s.len(),
{
    if s.len() == 0 {
        s
    } else if passes(s.last(), filter, user) {
        kept(s.drop_last(), filter, user).push(s.last())
    } else {
        kept(s.drop_last(), filter, user)
    }
}

/// The table: every record of the forest that passes the filter, in the
/// chosen order, equal keys in pre-order.
pub open spec fn table_rows(
    forest: Seq<ProcessInfo>,
    crit: SortCriterion,
    dir: SortDirection,
    filter: ProcessFilter,
    user: Seq<char>,
) -> Seq<ProcessInfo> {
    sorted_by(kept(flatten(forest), filter, user), crit, dir)
}

proof fn lemma_insert_pos_bounds(s: Seq<ProcessInfo>, x: ProcessInfo, crit: SortCriterion, dir: SortDirection)
    ensures
        0 <= insert_pos(s, x, crit, dir) <= s.len(),
    decreases s.len(),
{
    if s.len() > 0 {
        lemma_insert_pos_bounds(s.drop_last(), x, crit, dir);
    }
}

/// Sorting keeps the length and takes every element from the input.
pub proof fn lemma_sorted_from(s: Seq<ProcessInfo>, crit: SortCriterion, dir: SortDirection)
    ensures
        sorted_by(s, crit, dir).len() == s.len(),
        forall|i: int|
            0 <= i < s.len() ==> s.contains(#[trigger] sorted_by(s, crit, dir)[i]),
    decreases s.len(),
{
    if s.len() > 0 {
        let t = sorted_by(s.drop_last(), crit, dir);
        lemma_sorted_from(s.drop_last(), crit, dir);
        let p = insert_pos(t, s.last(), crit, dir);
        lemma_insert_pos_bounds(t, s.last(), crit, dir);
        let r = t.insert(p, s.last());
        assert forall|i: int| 0 <= i < s.len() implies s.contains(#[trigger] r[i]) by {
            if i < p {
                assert(r[i] == t[i]);
                let j = choose|j: int| 0 <= j < s.len() - 1 && s.drop_last()[j] == t[i];
                assert(s[j] == r[i]);
            } else if i == p {
                assert(s[s.len() - 1] == r[i]);
            } else {
                assert(r[i] == t[i - 1]);
                let j = choose|j: int| 0 <= j < s.len() - 1 && s.drop_last()[j] == t[i - 1];
                assert(s[j] == r[i]);
            }
        }
    }
}

proof fn lemma_lex_step(a: Seq<char>, b: Seq<char>, i: int)
    requires
        0 <= i < a.len(),
        i < b.len(),
        a[i] == b[i],
    ensures
        lex_cmp(a.skip(i), b.skip(i)) == lex_cmp(a.skip(i + 1), b.skip(i + 1)),
{
    assert(a.skip(i).drop_first() =~= a.skip(i + 1));
    assert(b.skip(i).drop_first() =~= b.skip(i + 1));
}

/// Compares two names by code point.
pub fn compare_names(a: &String, b: &String) -> (r: i8)
    ensures
        r as int == lex_cmp(a@, b@),
{
    let sa = a.as_str();
    let sb = b.as_str();
    let la = sa.unicode_len();
    let lb = sb.unicode_len();
    let mut i: usize = 0;
    assert(a@.skip(0) =~= a@);
    assert(b@.skip(0) =~= b@);
    while i < la && i < lb
        invariant
            la == a@.len(),
            lb == b@.len(),
            sa@ == a@,
            sb@ == b@,
            i <= la,
            i <= lb,
            lex_cmp(a@, b@) == lex_cmp(a@.skip(i as int), b@.skip(i as int)),
        decreases la - i,
    {
        let ca = sa.get_char(i);
        let cb = sb.get_char(i);
        if ca < cb {
            return -1;
        }
        if ca > cb {
            return 1;
        }
        proof {
            lemma_lex_step(a@, b@, i as int);
        }
        i = i + 1;
    }
    if i < la {
        1
    } else if i < lb {
        -1
    } else {
        0
    }
}

/// Whether `a` may stand before `b` in the chosen order.
pub fn goes_before(a: &ProcessInfo, b: &ProcessInfo, crit: SortCriterion, dir: SortDirection) -> (r: bool)
    ensures
        r == may_precede(*a, *b, crit, dir),
{
    let up = match crit {
        SortCriterion::Name => match dir {
            SortDirection::Descending => true,
            SortDirection::Ascending => false,
        },
        _ => match dir {
            SortDirection::Ascending => true,
            SortDirection::Descending => false,
        },
    };
    let (x, y) = if up {
        (a, b)
    } else {
        (b, a)
    };
    match crit {
        SortCriterion::Cpu => x.cpu <= y.cpu,
        SortCriterion::Memory => x.memory <= y.memory,
        SortCriterion::Name => compare_names(&x.name, &y.name) <= 0,
    }
}

/// `rows` put in the chosen order by a stable insertion sort.
pub fn sort_rows<'a>(rows: Vec<&'a ProcessInfo>, crit: SortCriterion, dir: SortDirection) -> (r: Vec<
    &'a ProcessInfo,
>)
    ensures
        records(r@) == sorted_by(records(rows@), crit, dir),
{
    let mut out: Vec<&'a ProcessInfo> = Vec::new();
    let mut i: usize = 0;
    while i < rows.len()
        invariant
            i <= rows@.len(),
            records(out@) == sorted_by(records(rows@.take(i as int)), crit, dir),
        decreases rows@.len() - i,
    {
        let x = rows[i];
        let mut j: usize = out.len();
        let ghost cur = records(out@);
        proof {
            assert(records(out@.take(j as int)) =~= cur);
        }
        while j > 0 && !goes_before(out[j - 1], x, crit, dir)
            invariant
                j <= out@.len(),
                cur == records(out@),
                insert_pos(cur, *x, crit, dir) == insert_pos(records(out@.take(j as int)), *x, crit, dir),
            decreases j,
        {
            proof {
                assert(records(out@.take(j as int)).drop_last() =~= records(out@.take(j - 1)));
                assert(records(out@.take(j as int)).last() == *out@[j - 1]);
            }
            j = j - 1;
        }
        proof {
            if j > 0 {
                assert(records(out@.take(j as int)).last() == *out@[j - 1]);
            } else {
                assert(records(out@.take(0)) =~= Seq::<ProcessInfo>::empty());
            }
            assert(records(rows@.take(i + 1)).drop_last() =~= records(rows@.take(i as int)));
            assert(records(rows@.take(i + 1)).last() == *x);
        }
        out.insert(j, x);
        proof {
            assert(records(out@) =~= cur.insert(j as int, *x));
        }
        i = i + 1;
    }
    assert(rows@.take(rows@.len() as int) =~= rows@);
    assert(rows@.take(rows@.len() as int) =~= rows@);
    out
}

/// Appends the records of `level` and all their descendants in pre-order.
fn collect_all<'a>(level: &'a Vec<ProcessInfo>, out: &mut Vec<&'a ProcessInfo>)
    ensures
        records(final(out)@) == records(old(out)@) + flatten(level@),
    decreases level@,
{
    let mut i: usize = 0;
    while i < level.len()
        invariant
            i <= level@.len(),
            records(out@) == records(old(out)@) + flatten(level@.take(i as int)),
        decreases level@.len() - i,
    {
        let p = &level[i];
        let ghost start = records(out@);
        out.push(p);
        proof {
            assert(records(out@) =~= start.push(*p));
        }
        proof {
            assert(decreases_to!(level@ => level@[i as int]));
        }
        collect_all(&p.child, out);
        proof {
            assert(level@.take(i + 1).drop_last() =~= level@.take(i as int));
            assert(flatten_node(*p) == seq![*p] + flatten(p.child@));
            assert(records(out@) =~= records(old(out)@) + flatten(level@.take(i as int)) + seq![*p] + flatten(p.child@));
            assert(records(out@) =~= records(old(out)@) + flatten(level@.take(i + 1)));
        }
        i = i + 1;
    }
    assert(level@.take(level@.len() as int) =~= level@);
}

/// The records of `rows` that pass the filter.
fn keep_passing<'a>(rows: &Vec<&'a ProcessInfo>, filter: ProcessFilter, user: &String) -> (r: Vec<
    &'a ProcessInfo,
>)
    ensures
        records(r@) == kept(records(rows@), filter, user@),
{
    let mut out: Vec<&'a ProcessInfo> = Vec::new();
    let mut i: usize = 0;
    while i < rows.len()
        invariant
            i <= rows@.len(),
            records(out@) == kept(records(rows@.take(i as int)), filter, user@),
        decreases rows@.len() - i,
    {
        let p = rows[i];
        let ghost start = records(out@);
        proof {
            assert(records(rows@.take(i + 1)).drop_last() =~= records(rows@.take(i as int)));
            assert(records(rows@.take(i + 1)).last() == *p);
        }
        if shown(p, filter, user) {
            out.push(p);
            proof {
                assert(records(out@) =~= start.push(*p));
            }
        }
        i = i + 1;
    }
    assert(rows@.take(rows@.len() as int) =~= rows@);
    out
}

/// Whether `p` is shown under `filter` for the account named `user`.
pub fn shown(p: &ProcessInfo, filter: ProcessFilter, user: &String) -> (r: bool)
    ensures
        r == passes(*p, filter, user@),
{
    match filter {
        ProcessFilter::All => true,
        ProcessFilter::OwnedByCurrentUser => p.user == *user,
        ProcessFilter::NotOwnedByCurrentUser => p.user != *user,
    }
}

/// The table view: every record of the forest, at any depth, that passes the
/// filter, in the chosen order; records with equal keys stay in pre-order.
pub fn project_table<'a>(
    forest: &'a Vec<ProcessInfo>,
    crit: SortCriterion,
    dir: SortDirection,
    filter: ProcessFilter,
    user: &String,
) -> (r: Vec<&'a ProcessInfo>)
    ensures
        records(r@) == table_rows(forest@, crit, dir, filter, user@),
{
    let mut all: Vec<&'a ProcessInfo> = Vec::new();
    collect_all(forest, &mut all);
    assert(records(all@) =~= flatten(forest@));
    let shown_rows = keep_passing(&all, filter, user);
    sort_rows(shown_rows, crit, dir)
}

/// The rows of the tree view that one record yields at `depth`. A record that
/// passes the filter is a row, and its children follow one level deeper when
/// its pid is expanded. A record that fails the filter is no row, and its
/// children stand at its own depth, whether it is expanded or not.
pub open spec fn tree_node(
    n: ProcessInfo,
    depth: int,
    crit: SortCriterion,
    dir: SortDirection,
    filter: ProcessFilter,
    user: Seq<char>,
    open: Set<u32>,
) -> Seq<(ProcessInfo, int)>
    decreases n, 0int,
{
    if passes(n, filter, user) {
        if open.contains(n.pid) {
            seq![(n, depth)] + tree_prefix(
                n.child@,
                n.child@.len() as int,
                depth + 1,
                crit,
                dir,
                filter,
                user,
                open,
            )
        } else {
            seq![(n, depth)]
        }
    } else {
        tree_prefix(n.child@, n.child@.len() as int, depth, crit, dir, filter, user, open)
    }
}

/// The rows that the first `k` records of `level`, in the chosen order,
/// yield at `depth`.
pub open spec fn tree_prefix(
    level: Seq<ProcessInfo>,
    k: int,
    depth: int,
    crit: SortCriterion,
    dir: SortDirection,
    filter: ProcessFilter,
    user: Seq<char>,
    open: Set<u32>,
) -> Seq<(ProcessInfo, int)>
    decreases level, k,
{
    if k <= 0 || k > level.len() {
        Seq::empty()
    } else {
        proof {
            lemma_sorted_from(level, crit, dir);
            let j = choose|j: int| 0 <= j < level.len() && level[j] == sorted_by(level, crit, dir)[k - 1];
            assert(decreases_to!(level => level[j]));
        }
        tree_prefix(level, k - 1, depth, crit, dir, filter, user, open) + tree_node(
            sorted_by(level, crit, dir)[k - 1],
            depth,
            crit,
            dir,
            filter,
            user,
            open,
        )
    }
}

/// The tree view of a forest: its roots at depth zero.
pub open spec fn tree_rows(
    forest: Seq<ProcessInfo>,
    crit: SortCriterion,
    dir: SortDirection,
    filter: ProcessFilter,
    user: Seq<char>,
    open: Set<u32>,
) -> Seq<(ProcessInfo, int)> {
    tree_prefix(forest, forest.len() as int, 0, crit, dir, filter, user, open)
}

/// A row of the tree view as a record and a depth.
pub open spec fn tree_row_values(s: Seq<(&ProcessInfo, usize)>) -> Seq<(ProcessInfo, int)> {
    s.map_values(|r: (&ProcessInfo, usize)| (*r.0, r.1 as int))
}

/// Appends the tree rows of `level` at `depth`.
fn tree_into<'a>(
    level: &'a Vec<ProcessInfo>,
    depth: usize,
    crit: SortCriterion,
    dir: SortDirection,
    filter: ProcessFilter,
    user: &String,
    open: &HashSet<u32>,
    out: &mut Vec<(&'a ProcessInfo, usize)>,
)
    requires
        depth + forest_height(level@) <= usize::MAX,
    ensures
        tree_row_values(final(out)@) == tree_row_values(old(out)@) + tree_prefix(
            level@,
            level@.len() as int,
            depth as int,
            crit,
            dir,
            filter,
            user@,
            open@,
        ),
    decreases level@,
{
    broadcast use vstd::std_specs::hash::group_hash_axioms;

    let mut refs: Vec<&'a ProcessInfo> = Vec::new();
    let mut i: usize = 0;
    while i < level.len()
        invariant
            i <= level@.len(),
            records(refs@) == level@.take(i as int),
        decreases level@.len() - i,
    {
        let ghost start = records(refs@);
        refs.push(&level[i]);
        proof {
            assert(records(refs@) =~= start.push(level@[i as int]));
            assert(level@.take(i + 1) =~= level@.take(i as int).push(level@[i as int]));
        }
        i = i + 1;
    }
    assert(level@.take(level@.len() as int) =~= level@);
    let sorted = sort_rows(refs, crit, dir);
    proof {
        lemma_sorted_from(level@, crit, dir);
    }
    let mut k: usize = 0;
    while k < sorted.len()
        invariant
            depth + forest_height(level@) <= usize::MAX,
            records(sorted@) == sorted_by(level@, crit, dir),
            sorted@.len() == level@.len(),
            k <= sorted@.len(),
            tree_row_values(out@) == tree_row_values(old(out)@) + tree_prefix(
                level@,
                k as int,
                depth as int,
                crit,
                dir,
                filter,
                user@,
                open@,
            ),
        decreases sorted@.len() - k,
    {
        let x = sorted[k];
        let ghost start = tree_row_values(out@);
        proof {
            assert(records(sorted@)[k as int] == *x);
            lemma_sorted_from(level@, crit, dir);
            assert(level@.contains(sorted_by(level@, crit, dir)[k as int]));
            let j = choose|j: int| 0 <= j < level@.len() && level@[j] == sorted_by(level@, crit, dir)[k as int];
            assert(decreases_to!(level@ => level@[j]));
            lemma_member_height(level@, j);
            assert(height(*x) == 1 + forest_height(x.child@));
        }
        if shown(x, filter, user) {
            out.push((x, depth));
            proof {
                assert(tree_row_values(out@) =~= start + seq![(*x, depth as int)]);
            }
            if open.contains(&x.pid) {
                tree_into(&x.child, depth + 1, crit, dir, filter, user, open, out);
            }
        } else {
            tree_into(&x.child, depth, crit, dir, filter, user, open, out);
        }
        proof {
            assert(tree_row_values(out@) =~= start + tree_node(
                *x,
                depth as int,
                crit,
                dir,
                filter,
                user@,
                open@,
            ));
        }
        k = k + 1;
    }
}

/// The tree view: roots at depth zero, each record's children sorted by the
/// chosen order before the filter applies (see `tree_node`).
pub fn project_tree<'a>(
    forest: &'a Vec<ProcessInfo>,
    crit: SortCriterion,
    dir: SortDirection,
    filter: ProcessFilter,
    user: &String,
    open: &HashSet<u32>,
) -> (r: Vec<(&'a ProcessInfo, usize)>)
    requires
        forest_height(forest@) <= usize::MAX,
    ensures
        tree_row_values(r@) == tree_rows(forest@, crit, dir, filter, user@, open@),
{
    let mut out: Vec<(&'a ProcessInfo, usize)> = Vec::new();
    tree_into(forest, 0, crit, dir, filter, user, open, &mut out);
    assert(tree_row_values(out@) =~= tree_rows(forest@, crit, dir, filter, user@, open@));
    out
}

/// `open` with `pid` added when it was absent and taken out when present.
pub open spec fn toggled(open: Set<u32>, pid: u32) -> Set<u32> {
    if open.contains(pid) {
        open.remove(pid)
    } else {
        open.insert(pid)
    }
}

/// The opposite direction.
pub open spec fn flipped(dir: SortDirection) -> SortDirection {
    match dir {
        SortDirection::Ascending => SortDirection::Descending,
        SortDirection::Descending => SortDirection::Ascending,
    }
}

/// What the viewer has chosen; it outlives every snapshot.
pub struct ViewConfig {
    pub criterion: SortCriterion,
    pub direction: SortDirection,
    pub filter: ProcessFilter,
    pub mode: ViewMode,
    /// The pids whose children the tree view shows.
    pub expanded: HashSet<u32>,
}

impl ViewConfig {
    /// CPU, descending, the current user's processes, as a table, nothing
    /// expanded.
    pub fn new() -> (r: ViewConfig)
        ensures
            r.criterion == SortCriterion::Cpu,
            r.direction == SortDirection::Descending,
            r.filter == ProcessFilter::OwnedByCurrentUser,
            r.mode == ViewMode::Table,
            r.expanded@ == Set::<u32>::empty(),
    {
        ViewConfig {
            criterion: SortCriterion::Cpu,
            direction: SortDirection::Descending,
            filter: ProcessFilter::OwnedByCurrentUser,
            mode: ViewMode::Table,
            expanded: HashSet::new(),
        }
    }

    /// Expands a collapsed pid, or collapses an expanded one.
    pub fn toggle_expanded(&mut self, pid: u32)
        ensures
            final(self).expanded@ == toggled(old(self).expanded@, pid),
            final(self).criterion == old(self).criterion,
            final(self).direction == old(self).direction,
            final(self).filter == old(self).filter,
            final(self).mode == old(self).mode,
    {
        broadcast use vstd::std_specs::hash::group_hash_axioms;

        if self.expanded.contains(&pid) {
            self.expanded.remove(&pid);
        } else {
            self.expanded.insert(pid);
        }
    }

    /// A click on a sort column: sort by `crit`, and turn the direction round.
    pub fn select_criterion(&mut self, crit: SortCriterion)
        ensures
            final(self).criterion == crit,
            final(self).direction == flipped(old(self).direction),
            final(self).filter == old(self).filter,
            final(self).mode == old(self).mode,
            final(self).expanded@ == old(self).expanded@,
    {
        self.criterion = crit;
        self.direction = match self.direction {
            SortDirection::Ascending => SortDirection::Descending,
            SortDirection::Descending => SortDirection::Ascending,
        };
    }
}

/// The rows of one view.
pub enum Projection<'a> {
    Table(Vec<&'a ProcessInfo>),
    Tree(Vec<(&'a ProcessInfo, usize)>),
}

/// The view that `cfg` chooses, of the forest, for the account named `user`.
pub fn project<'a>(forest: &'a Vec<ProcessInfo>, cfg: &ViewConfig, user: &String) -> (r: Projection<'a>)
    requires
        cfg.mode == ViewMode::Tree ==> forest_height(forest@) <= usize::MAX,
    ensures
        cfg.mode == ViewMode::Table ==> (r matches Projection::Table(rows) && records(rows@)
            == table_rows(forest@, cfg.criterion, cfg.direction, cfg.filter, user@)),
        cfg.mode == ViewMode::Tree ==> (r matches Projection::Tree(rows) && tree_row_values(rows@)
            == tree_rows(forest@, cfg.criterion, cfg.direction, cfg.filter, user@, cfg.expanded@)),
{
    match cfg.mode {
        ViewMode::Table => Projection::Table(
            project_table(forest, cfg.criterion, cfg.direction, cfg.filter, user),
        ),
        ViewMode::Tree => Projection::Tree(
            project_tree(forest, cfg.criterion, cfg.direction, cfg.filter, user, &cfg.expanded),
        ),
    }
}

/// The records of `s` whose key under `crit` equals that of `x`, in order.
pub open spec fn ties_of(s: Seq<ProcessInfo>, x: ProcessInfo, crit: SortCriterion) -> Seq<ProcessInfo>
    decreases s.len(),
{
    if s.len() == 0 {
        s
    } else if key_cmp(s.last(), x, crit) == 0 {
        ties_of(s.drop_last(), x, crit).push(s.last())
    } else {
        ties_of(s.drop_last(), x, crit)
    }
}

/// Each record may precede the next one.
pub open spec fn in_order(s: Seq<ProcessInfo>, crit: SortCriterion, dir: SortDirection) -> bool {
    forall|i: int| 0 <= i < s.len() - 1 ==> may_precede(#[trigger] s[i], s[i + 1], crit, dir)
}

proof fn lemma_lex_zero(a: Seq<char>, b: Seq<char>)
    ensures
        lex_cmp(a, b) == 0 <==> a == b,
    decreases a.len(),
{
    if a.len() == 0 && b.len() == 0 {
        assert(a =~= b);
    }
    if a.len() > 0 && b.len() > 0 && a[0] == b[0] {
        lemma_lex_zero(a.drop_first(), b.drop_first());
        if a.drop_first() == b.drop_first() {
            assert(a =~= seq![a[0]] + a.drop_first());
            assert(b =~= seq![b[0]] + b.drop_first());
        }
    }
}

proof fn lemma_lex_swap(a: Seq<char>, b: Seq<char>)
    ensures
        lex_cmp(a, b) == -lex_cmp(b, a),
    decreases a.len(),
{
    if a.len() > 0 && b.len() > 0 && a[0] == b[0] {
        lemma_lex_swap(a.drop_first(), b.drop_first());
    }
}

proof fn lemma_key_swap(a: ProcessInfo, b: ProcessInfo, crit: SortCriterion)
    ensures
        key_cmp(a, b, crit) == -key_cmp(b, a, crit),
{
    lemma_lex_swap(a.name@, b.name@);
}

/// Two records tied with `x` may stand in either order.
proof fn lemma_ties_precede(a: ProcessInfo, b: ProcessInfo, x: ProcessInfo, crit: SortCriterion, dir: SortDirection)
    requires
        key_cmp(a, x, crit) == 0,
        key_cmp(b, x, crit) == 0,
    ensures
        may_precede(a, b, crit, dir),
{
    lemma_lex_zero(a.name@, x.name@);
    lemma_lex_zero(b.name@, x.name@);
    lemma_lex_zero(a.name@, b.name@);
    lemma_lex_zero(b.name@, a.name@);
}

proof fn lemma_ties_concat(a: Seq<ProcessInfo>, b: Seq<ProcessInfo>, x: ProcessInfo, crit: SortCriterion)
    ensures
        ties_of(a + b, x, crit) == ties_of(a, x, crit) + ties_of(b, x, crit),
    decreases b.len(),
{
    if b.len() == 0 {
        assert(a + b =~= a);
        assert(ties_of(a, x, crit) + ties_of(b, x, crit) =~= ties_of(a, x, crit));
    } else {
        lemma_ties_concat(a, b.drop_last(), x, crit);
        assert((a + b).drop_last() =~= a + b.drop_last());
        assert((a + b).last() == b.last());
        if key_cmp(b.last(), x, crit) == 0 {
            assert(ties_of(a + b, x, crit) =~= ties_of(a, x, crit) + ties_of(b, x, crit));
        }
    }
}

proof fn lemma_insert_pos_before(s: Seq<ProcessInfo>, y: ProcessInfo, crit: SortCriterion, dir: SortDirection)
    ensures
        insert_pos(s, y, crit, dir) > 0 ==> may_precede(s[insert_pos(s, y, crit, dir) - 1], y, crit, dir),
        forall|i: int|
            insert_pos(s, y, crit, dir) <= i < s.len() ==> !may_precede(#[trigger] s[i], y, crit, dir),
    decreases s.len(),
{
    if s.len() > 0 && !may_precede(s.last(), y, crit, dir) {
        lemma_insert_pos_before(s.drop_last(), y, crit, dir);
        lemma_insert_pos_bounds(s.drop_last(), y, crit, dir);
        let p = insert_pos(s, y, crit, dir);
        if p > 0 {
            assert(s[p - 1] == s.drop_last()[p - 1]);
        }
        assert forall|i: int| p <= i < s.len() implies !may_precede(#[trigger] s[i], y, crit, dir) by {
            if i < s.len() - 1 {
                assert(s[i] == s.drop_last()[i]);
            }
        }
    }
}

proof fn lemma_sort_keeps_ties(s: Seq<ProcessInfo>, x: ProcessInfo, crit: SortCriterion, dir: SortDirection)
    ensures
        ties_of(sorted_by(s, crit, dir), x, crit) == ties_of(s, x, crit),
    decreases s.len(),
{
    if s.len() > 0 {
        let t = sorted_by(s.drop_last(), crit, dir);
        let y = s.last();
        lemma_sort_keeps_ties(s.drop_last(), x, crit, dir);
        let p = insert_pos(t, y, crit, dir);
        lemma_insert_pos_bounds(t, y, crit, dir);
        lemma_insert_pos_before(t, y, crit, dir);
        let head = t.take(p);
        let tail = t.skip(p);
        assert(t =~= head + tail);
        assert(t.insert(p, y) =~= head + seq![y] + tail);
        lemma_ties_concat(head + seq![y], tail, x, crit);
        lemma_ties_concat(head, seq![y], x, crit);
        lemma_ties_concat(head, tail, x, crit);
        assert(seq![y].drop_last() =~= Seq::<ProcessInfo>::empty());
        assert(seq![y].last() == y);
        assert(ties_of(Seq::<ProcessInfo>::empty(), x, crit) =~= Seq::<ProcessInfo>::empty());
        if key_cmp(y, x, crit) == 0 {
            assert forall|i: int| 0 <= i < tail.len() implies key_cmp(#[trigger] tail[i], x, crit) != 0 by {
                assert(tail[i] == t[p + i]);
                if key_cmp(tail[i], x, crit) == 0 {
                    lemma_ties_precede(tail[i], y, x, crit, dir);
                }
            }
            lemma_no_ties(tail, x, crit);
            assert(ties_of(seq![y], x, crit) =~= seq![y]);
            assert(ties_of(s, x, crit) == ties_of(s.drop_last(), x, crit).push(y));
            assert(ties_of(t.insert(p, y), x, crit) =~= ties_of(head, x, crit) + seq![y]);
            assert(ties_of(t, x, crit) =~= ties_of(head, x, crit));
        } else {
            assert(ties_of(seq![y], x, crit) =~= Seq::<ProcessInfo>::empty());
            assert(ties_of(s, x, crit) == ties_of(s.drop_last(), x, crit));
            assert(ties_of(t.insert(p, y), x, crit) =~= ties_of(head, x, crit) + ties_of(tail, x, crit));
        }
        assert(sorted_by(s, crit, dir) == t.insert(p, y));
    }
}

proof fn lemma_no_ties(s: Seq<ProcessInfo>, x: ProcessInfo, crit: SortCriterion)
    requires
        forall|i: int| 0 <= i < s.len() ==> key_cmp(#[trigger] s[i], x, crit) != 0,
    ensures
        ties_of(s, x, crit) == Seq::<ProcessInfo>::empty(),
    decreases s.len(),
{
    if s.len() > 0 {
        lemma_no_ties(s.drop_last(), x, crit);
    }
}

proof fn lemma_sorted_in_order(s: Seq<ProcessInfo>, crit: SortCriterion, dir: SortDirection)
    ensures
        in_order(sorted_by(s, crit, dir), crit, dir),
    decreases s.len(),
{
    if s.len() > 0 {
        let t = sorted_by(s.drop_last(), crit, dir);
        let y = s.last();
        lemma_sorted_in_order(s.drop_last(), crit, dir);
        lemma_sorted_from(s.drop_last(), crit, dir);
        let p = insert_pos(t, y, crit, dir);
        lemma_insert_pos_bounds(t, y, crit, dir);
        lemma_insert_pos_before(t, y, crit, dir);
        let r = t.insert(p, y);
        assert forall|i: int| 0 <= i < r.len() - 1 implies may_precede(#[trigger] r[i], r[i + 1], crit, dir) by {
            if i + 1 < p {
                assert(r[i] == t[i] && r[i + 1] == t[i + 1]);
            } else if i + 1 == p {
                assert(r[i] == t[p - 1] && r[i + 1] == y);
            } else if i == p {
                assert(r[i] == y && r[i + 1] == t[p]);
                lemma_key_swap(y, t[p], crit);
            } else {
                assert(r[i] == t[i - 1] && r[i + 1] == t[i]);
            }
        }
    }
}

proof fn lemma_sort_of_in_order(s: Seq<ProcessInfo>, crit: SortCriterion, dir: SortDirection)
    requires
        in_order(s, crit, dir),
    ensures
        sorted_by(s, crit, dir) == s,
    decreases s.len(),
{
    if s.len() > 0 {
        let d = s.drop_last();
        assert(in_order(d, crit, dir)) by {
            assert forall|i: int| 0 <= i < d.len() - 1 implies may_precede(#[trigger] d[i], d[i + 1], crit, dir) by {
                assert(d[i] == s[i] && d[i + 1] == s[i + 1]);
            }
        }
        lemma_sort_of_in_order(d, crit, dir);
        if d.len() > 0 {
            assert(may_precede(s[s.len() - 2], s[s.len() - 1], crit, dir));
            assert(d.last() == s[s.len() - 2]);
        }
        assert(d.insert(insert_pos(d, s.last(), crit, dir), s.last()) =~= s);
    }
}

/// Ties in the table keep their pre-order: the records whose key equals that
/// of any record `x` stand in the table in the order in which they stand in
/// the filtered pre-order listing.
pub proof fn table_keeps_ties_in_order(
    forest: Seq<ProcessInfo>,
    crit: SortCriterion,
    dir: SortDirection,
    filter: ProcessFilter,
    user: Seq<char>,
    x: ProcessInfo,
)
    ensures
        ties_of(table_rows(forest, crit, dir, filter, user), x, crit) == ties_of(
            kept(flatten(forest), filter, user),
            x,
            crit,
        ),
{
    lemma_sort_keeps_ties(kept(flatten(forest), filter, user), x, crit, dir);
}

/// The table is already in order: each row may precede the next, and
/// ordering it once more leaves it as it is.
pub proof fn table_is_settled(
    forest: Seq<ProcessInfo>,
    crit: SortCriterion,
    dir: SortDirection,
    filter: ProcessFilter,
    user: Seq<char>,
)
    ensures
        in_order(table_rows(forest, crit, dir, filter, user), crit, dir),
        sorted_by(table_rows(forest, crit, dir, filter, user), crit, dir) == table_rows(
            forest,
            crit,
            dir,
            filter,
            user,
        ),
{
    lemma_sorted_in_order(kept(flatten(forest), filter, user), crit, dir);
    lemma_sort_of_in_order(table_rows(forest, crit, dir, filter, user), crit, dir);
}

/// Two projections of equal forests under equal choices give the same rows.
pub proof fn projections_repeat(
    f1: Seq<ProcessInfo>,
    f2: Seq<ProcessInfo>,
    crit: SortCriterion,
    dir: SortDirection,
    filter: ProcessFilter,
    user: Seq<char>,
    open: Set<u32>,
)
    requires
        f1 == f2,
    ensures
        table_rows(f1, crit, dir, filter, user) == table_rows(f2, crit, dir, filter, user),
        tree_rows(f1, crit, dir, filter, user, open) == tree_rows(f2, crit, dir, filter, user, open),
{
}

/// A record that fails the filter is transparent in the tree: its children
/// stand where it would have stood, at its depth, expanded or not.
pub proof fn tree_hidden_is_transparent(
    n: ProcessInfo,
    depth: int,
    crit: SortCriterion,
    dir: SortDirection,
    filter: ProcessFilter,
    user: Seq<char>,
    open: Set<u32>,
)
    requires
        !passes(n, filter, user),
    ensures
        tree_node(n, depth, crit, dir, filter, user, open) == tree_prefix(
            n.child@,
            n.child@.len() as int,
            depth,
            crit,
            dir,
            filter,
            user,
            open,
        ),
{
}

/// A record that passes the filter is a row, followed by the rows of its
/// children one level deeper if and only if its pid is expanded.
pub proof fn tree_children_follow_expansion(
    n: ProcessInfo,
    depth: int,
    crit: SortCriterion,
    dir: SortDirection,
    filter: ProcessFilter,
    user: Seq<char>,
    open: Set<u32>,
)
    requires
        passes(n, filter, user),
    ensures
        open.contains(n.pid) ==> tree_node(n, depth, crit, dir, filter, user, open) == seq![(n, depth)]
            + tree_prefix(n.child@, n.child@.len() as int, depth + 1, crit, dir, filter, user, open),
        !open.contains(n.pid) ==> tree_node(n, depth, crit, dir, filter, user, open) == seq![
            (n, depth),
        ],
{
}

proof fn lemma_node_rows_pass(
    n: ProcessInfo,
    depth: int,
    crit: SortCriterion,
    dir: SortDirection,
    filter: ProcessFilter,
    user: Seq<char>,
    open: Set<u32>,
)
    ensures
        forall|i: int|
            0 <= i < tree_node(n, depth, crit, dir, filter, user, open).len() ==> passes(
                (#[trigger] tree_node(n, depth, crit, dir, filter, user, open)[i]).0,
                filter,
                user,
            ),
    decreases n, 0int,
{
    let rows = tree_node(n, depth, crit, dir, filter, user, open);
    if passes(n, filter, user) {
        if open.contains(n.pid) {
            let rest = tree_prefix(n.child@, n.child@.len() as int, depth + 1, crit, dir, filter, user, open);
            lemma_prefix_rows_pass(n.child@, n.child@.len() as int, depth + 1, crit, dir, filter, user, open);
            assert(rows == seq![(n, depth)] + rest);
            assert forall|i: int| 0 <= i < rows.len() implies passes((#[trigger] rows[i]).0, filter, user) by {
                if i > 0 {
                    assert(rows[i] == rest[i - 1]);
                }
            }
        } else {
            assert(rows == seq![(n, depth)]);
        }
    } else {
        lemma_prefix_rows_pass(n.child@, n.child@.len() as int, depth, crit, dir, filter, user, open);
        assert(rows == tree_prefix(n.child@, n.child@.len() as int, depth, crit, dir, filter, user, open));
    }
}

proof fn lemma_prefix_rows_pass(
    level: Seq<ProcessInfo>,
    k: int,
    depth: int,
    crit: SortCriterion,
    dir: SortDirection,
    filter: ProcessFilter,
    user: Seq<char>,
    open: Set<u32>,
)
    ensures
        forall|i: int|
            0 <= i < tree_prefix(level, k, depth, crit, dir, filter, user, open).len() ==> passes(
                (#[trigger] tree_prefix(level, k, depth, crit, dir, filter, user, open)[i]).0,
                filter,
                user,
            ),
    decreases level, k,
{
    if 0 < k <= level.len() {
        lemma_sorted_from(level, crit, dir);
        let j = choose|j: int| 0 <= j < level.len() && level[j] == sorted_by(level, crit, dir)[k - 1];
        assert(decreases_to!(level => level[j]));
        lemma_prefix_rows_pass(level, k - 1, depth, crit, dir, filter, user, open);
        lemma_node_rows_pass(sorted_by(level, crit, dir)[k - 1], depth, crit, dir, filter, user, open);
        let a = tree_prefix(level, k - 1, depth, crit, dir, filter, user, open);
        let b = tree_node(sorted_by(level, crit, dir)[k - 1], depth, crit, dir, filter, user, open);
        let rows = tree_prefix(level, k, depth, crit, dir, filter, user, open);
        assert(rows == a + b);
        assert forall|i: int| 0 <= i < rows.len() implies passes((#[trigger] rows[i]).0, filter, user) by {
            if i < a.len() {
                assert(rows[i] == a[i]);
            } else {
                assert(rows[i] == b[i - a.len()]);
            }
        }
    }
}

/// Every row of the tree view passes the filter.
pub proof fn tree_shows_only_passing(
    forest: Seq<ProcessInfo>,
    crit: SortCriterion,
    dir: SortDirection,
    filter: ProcessFilter,
    user: Seq<char>,
    open: Set<u32>,
)
    ensures
        forall|i: int|
            0 <= i < tree_rows(forest, crit, dir, filter, user, open).len() ==> passes(
                (#[trigger] tree_rows(forest, crit, dir, filter, user, open)[i]).0,
                filter,
                user,
            ),
{
    lemma_prefix_rows_pass(forest, forest.len() as int, 0, crit, dir, filter, user, open);
}

/// Toggling a pid twice restores the expanded set, and with it every view.
pub proof fn toggle_twice_restores(
    forest: Seq<ProcessInfo>,
    crit: SortCriterion,
    dir: SortDirection,
    filter: ProcessFilter,
    user: Seq<char>,
    open: Set<u32>,
    pid: u32,
)
    ensures
        toggled(toggled(open, pid), pid) == open,
        tree_rows(forest, crit, dir, filter, user, toggled(toggled(open, pid), pid)) == tree_rows(
            forest,
            crit,
            dir,
            filter,
            user,
            open,
        ),
{
    assert(toggled(toggled(open, pid), pid) =~= open);
}

/// Ordering a sequence only rearranges it: the result holds each record as
/// many times as the input does.
pub proof fn sorted_is_permutation(s: Seq<ProcessInfo>, crit: SortCriterion, dir: SortDirection)
    ensures
        sorted_by(s, crit, dir).to_multiset() == s.to_multiset(),
    decreases s.len(),
{
    broadcast use vstd::seq_lib::group_to_multiset_ensures;

    if s.len() > 0 {
        let t = sorted_by(s.drop_last(), crit, dir);
        sorted_is_permutation(s.drop_last(), crit, dir);
        lemma_insert_pos_bounds(t, s.last(), crit, dir);
        vstd::seq_lib::to_multiset_insert(t, insert_pos(t, s.last(), crit, dir), s.last());
        assert(s =~= s.drop_last().push(s.last()));
    }
}

/// Whether record `x` is a row at depth `d` of the tree view of the subtree
/// of `n`, with `n` placed at depth `d0`: either `x` is `n`, `n` passes the
/// filter and `d` is `d0`; or `x` is such a row of a child's subtree, where a
/// passing `n` lets rows through only when expanded and adds one level, and a
/// failing `n` lets them through at its own depth. So a record is a row
/// exactly when it passes and each passing ancestor is expanded, and its
/// depth counts its passing ancestors.
pub open spec fn shown_at(
    n: ProcessInfo,
    x: ProcessInfo,
    d0: int,
    d: int,
    filter: ProcessFilter,
    user: Seq<char>,
    open: Set<u32>,
) -> bool
    decreases n,
{
    (x == n && passes(n, filter, user) && d == d0) || exists|c: int|
        0 <= c < n.child@.len() && if passes(n, filter, user) {
            open.contains(n.pid) && shown_at(#[trigger] n.child@[c], x, d0 + 1, d, filter, user, open)
        } else {
            shown_at(#[trigger] n.child@[c], x, d0, d, filter, user, open)
        }
}

/// Whether `x` is a row at depth `d` of the tree view of `level`, placed at `d0`.
pub open spec fn shown_in(
    level: Seq<ProcessInfo>,
    x: ProcessInfo,
    d0: int,
    d: int,
    filter: ProcessFilter,
    user: Seq<char>,
    open: Set<u32>,
) -> bool {
    exists|c: int| 0 <= c < level.len() && shown_at(#[trigger] level[c], x, d0, d, filter, user, open)
}

proof fn lemma_contains_concat<A>(a: Seq<A>, b: Seq<A>, v: A)
    ensures
        (a + b).contains(v) <==> a.contains(v) || b.contains(v),
{
    if (a + b).contains(v) {
        let i = choose|i: int| 0 <= i < (a + b).len() && (a + b)[i] == v;
        if i < a.len() {
            assert(a[i] == v);
        } else {
            assert(b[i - a.len()] == v);
        }
    }
    if a.contains(v) {
        let i = choose|i: int| 0 <= i < a.len() && a[i] == v;
        assert((a + b)[i] == v);
    }
    if b.contains(v) {
        let i = choose|i: int| 0 <= i < b.len() && b[i] == v;
        assert((a + b)[a.len() + i] == v);
    }
}

/// Sorting neither adds nor drops a record.
proof fn lemma_sorted_same_members(s: Seq<ProcessInfo>, crit: SortCriterion, dir: SortDirection, y: ProcessInfo)
    ensures
        sorted_by(s, crit, dir).contains(y) <==> s.contains(y),
{
    broadcast use vstd::seq_lib::group_to_multiset_ensures;

    sorted_is_permutation(s, crit, dir);
    assert(sorted_by(s, crit, dir).to_multiset().count(y) == s.to_multiset().count(y));
}

proof fn lemma_node_membership(
    n: ProcessInfo,
    d0: int,
    crit: SortCriterion,
    dir: SortDirection,
    filter: ProcessFilter,
    user: Seq<char>,
    open: Set<u32>,
    x: ProcessInfo,
    d: int,
)
    ensures
        tree_node(n, d0, crit, dir, filter, user, open).contains((x, d)) == shown_at(
            n,
            x,
            d0,
            d,
            filter,
            user,
            open,
        ),
    decreases n, 0int,
{
    let rows = tree_node(n, d0, crit, dir, filter, user, open);
    let kids = n.child@;
    let below = if passes(n, filter, user) {
        d0 + 1
    } else {
        d0
    };
    let p = tree_prefix(kids, kids.len() as int, below, crit, dir, filter, user, open);
    lemma_prefix_membership(kids, kids.len() as int, below, crit, dir, filter, user, open, x, d);
    lemma_sorted_from(kids, crit, dir);
    // a row of some sorted child is a row of some child, and back
    let through = exists|c: int|
        0 <= c < kids.len() && shown_at(#[trigger] kids[c], x, below, d, filter, user, open);
    if exists|j: int|
        0 <= j < kids.len() && shown_at(
            #[trigger] sorted_by(kids, crit, dir)[j],
            x,
            below,
            d,
            filter,
            user,
            open,
        ) {
        let j = choose|j: int|
            0 <= j < kids.len() && shown_at(
                #[trigger] sorted_by(kids, crit, dir)[j],
                x,
                below,
                d,
                filter,
                user,
                open,
            );
        assert(kids.contains(sorted_by(kids, crit, dir)[j]));
        let c = choose|c: int| 0 <= c < kids.len() && kids[c] == sorted_by(kids, crit, dir)[j];
        assert(shown_at(kids[c], x, below, d, filter, user, open));
    }
    if through {
        let c = choose|c: int|
            0 <= c < kids.len() && shown_at(#[trigger] kids[c], x, below, d, filter, user, open);
        lemma_sorted_same_members(kids, crit, dir, kids[c]);
        assert(kids.contains(kids[c]));
        let j = choose|j: int|
            0 <= j < sorted_by(kids, crit, dir).len() && sorted_by(kids, crit, dir)[j] == kids[c];
        assert(shown_at(sorted_by(kids, crit, dir)[j], x, below, d, filter, user, open));
    }
    if passes(n, filter, user) {
        if open.contains(n.pid) {
            assert(rows == seq![(n, d0)] + p);
            lemma_contains_concat(seq![(n, d0)], p, (x, d));
            assert(seq![(n, d0)].contains((x, d)) <==> (x == n && d == d0)) by {
                if seq![(n, d0)].contains((x, d)) {
                    assert(seq![(n, d0)][0] == (x, d));
                }
                if x == n && d == d0 {
                    assert(seq![(n, d0)][0] == (x, d));
                }
            }
        } else {
            assert(rows == seq![(n, d0)]);
            assert(rows.contains((x, d)) <==> (x == n && d == d0)) by {
                if rows.contains((x, d)) {
                    assert(rows[0] == (x, d));
                }
                if x == n && d == d0 {
                    assert(rows[0] == (x, d));
                }
            }
        }
    } else {
        assert(rows == p);
    }
}

proof fn lemma_prefix_membership(
    level: Seq<ProcessInfo>,
    k: int,
    d0: int,
    crit: SortCriterion,
    dir: SortDirection,
    filter: ProcessFilter,
    user: Seq<char>,
    open: Set<u32>,
    x: ProcessInfo,
    d: int,
)
    requires
        0 <= k <= level.len(),
    ensures
        tree_prefix(level, k, d0, crit, dir, filter, user, open).contains((x, d)) == exists|j: int|
            0 <= j < k && shown_at(
                #[trigger] sorted_by(level, crit, dir)[j],
                x,
                d0,
                d,
                filter,
                user,
                open,
            ),
    decreases level, k,
{
    if k > 0 {
        lemma_sorted_from(level, crit, dir);
        let jj = choose|jj: int| 0 <= jj < level.len() && level[jj] == sorted_by(level, crit, dir)[k - 1];
        assert(decreases_to!(level => level[jj]));
        let y = sorted_by(level, crit, dir)[k - 1];
        lemma_prefix_membership(level, k - 1, d0, crit, dir, filter, user, open, x, d);
        lemma_node_membership(y, d0, crit, dir, filter, user, open, x, d);
        let a = tree_prefix(level, k - 1, d0, crit, dir, filter, user, open);
        let b = tree_node(y, d0, crit, dir, filter, user, open);
        assert(tree_prefix(level, k, d0, crit, dir, filter, user, open) == a + b);
        lemma_contains_concat(a, b, (x, d));
        if exists|j: int|
            0 <= j < k && shown_at(#[trigger] sorted_by(level, crit, dir)[j], x, d0, d, filter, user, open) {
            let j = choose|j: int|
                0 <= j < k && shown_at(
                    #[trigger] sorted_by(level, crit, dir)[j],
                    x,
                    d0,
                    d,
                    filter,
                    user,
                    open,
                );
            if j < k - 1 {
                assert(a.contains((x, d)));
            }
        }
    } else {
        assert(tree_prefix(level, k, d0, crit, dir, filter, user, open).len() == 0);
    }
}

/// Which rows the tree view holds, whatever the order: `(x, d)` is a row
/// exactly when `x` is a record of the forest that passes the filter, whose
/// passing ancestors are all expanded, and `d` is the number of its passing
/// ancestors (see `shown_at`).
pub proof fn tree_rows_are_shown_records(
    forest: Seq<ProcessInfo>,
    crit: SortCriterion,
    dir: SortDirection,
    filter: ProcessFilter,
    user: Seq<char>,
    open: Set<u32>,
    x: ProcessInfo,
    d: int,
)
    ensures
        tree_rows(forest, crit, dir, filter, user, open).contains((x, d)) == shown_in(
            forest,
            x,
            0,
            d,
            filter,
            user,
            open,
        ),
{
    lemma_prefix_membership(forest, forest.len() as int, 0, crit, dir, filter, user, open, x, d);
    lemma_sorted_from(forest, crit, dir);
    if shown_in(forest, x, 0, d, filter, user, open) {
        let c = choose|c: int| 0 <= c < forest.len() && shown_at(#[trigger] forest[c], x, 0, d, filter, user, open);
        lemma_sorted_same_members(forest, crit, dir, forest[c]);
        assert(forest.contains(forest[c]));
        let j = choose|j: int|
            0 <= j < sorted_by(forest, crit, dir).len() && sorted_by(forest, crit, dir)[j] == forest[c];
        assert(shown_at(sorted_by(forest, crit, dir)[j], x, 0, d, filter, user, open));
    }
    if exists|j: int|
        0 <= j < forest.len() && shown_at(
            #[trigger] sorted_by(forest, crit, dir)[j],
            x,
            0,
            d,
            filter,
            user,
            open,
        ) {
        let j = choose|j: int|
            0 <= j < forest.len() && shown_at(
                #[trigger] sorted_by(forest, crit, dir)[j],
                x,
                0,
                d,
                filter,
                user,
                open,
            );
        assert(forest.contains(sorted_by(forest, crit, dir)[j]));
        let c = choose|c: int| 0 <= c < forest.len() && forest[c] == sorted_by(forest, crit, dir)[j];
        assert(shown_at(forest[c], x, 0, d, filter, user, open));
    }
}

/// The pids of a forest's records, in pre-order.
pub open spec fn forest_pid_list(s: Seq<ProcessInfo>) -> Seq<u32> {
    flatten(s).map_values(|p: ProcessInfo| p.pid)
}

/// The pids of a subtree's records, in pre-order.
pub open spec fn subtree_pid_list(n: ProcessInfo) -> Seq<u32> {
    flatten_node(n).map_values(|p: ProcessInfo| p.pid)
}

/// The pids of the rows of a tree view, in order.
pub open spec fn row_pid_list(rows: Seq<(ProcessInfo, int)>) -> Seq<u32> {
    rows.map_values(|r: (ProcessInfo, int)| r.0.pid)
}

proof fn lemma_flatten_concat(a: Seq<ProcessInfo>, b: Seq<ProcessInfo>)
    ensures
        flatten(a + b) == flatten(a) + flatten(b),
    decreases b.len(),
{
    if b.len() == 0 {
        assert(a + b =~= a);
        assert(flatten(a) + flatten(b) =~= flatten(a));
    } else {
        lemma_flatten_concat(a, b.drop_last());
        assert((a + b).drop_last() =~= a + b.drop_last());
        assert((a + b).last() == b.last());
        assert(flatten(a + b) =~= flatten(a) + flatten(b));
    }
}

proof fn lemma_pids_concat(a: Seq<ProcessInfo>, b: Seq<ProcessInfo>)
    ensures
        forest_pid_list(a + b).to_multiset() == forest_pid_list(a).to_multiset().add(
            forest_pid_list(b).to_multiset(),
        ),
{
    lemma_flatten_concat(a, b);
    assert(forest_pid_list(a + b) =~= forest_pid_list(a) + forest_pid_list(b));
    vstd::seq_lib::lemma_multiset_commutative(forest_pid_list(a), forest_pid_list(b));
}

proof fn lemma_pids_push(a: Seq<ProcessInfo>, y: ProcessInfo)
    ensures
        forest_pid_list(a.push(y)).to_multiset() == forest_pid_list(a).to_multiset().add(
            subtree_pid_list(y).to_multiset(),
        ),
{
    assert(a.push(y).drop_last() =~= a);
    assert(forest_pid_list(a.push(y)) =~= forest_pid_list(a) + subtree_pid_list(y));
    vstd::seq_lib::lemma_multiset_commutative(forest_pid_list(a), subtree_pid_list(y));
}

/// Ordering the records of a level keeps the pids of the whole forest.
proof fn lemma_sorted_pids(s: Seq<ProcessInfo>, crit: SortCriterion, dir: SortDirection)
    ensures
        forest_pid_list(sorted_by(s, crit, dir)).to_multiset() == forest_pid_list(s).to_multiset(),
    decreases s.len(),
{
    broadcast use vstd::multiset::group_multiset_axioms;

    if s.len() > 0 {
        let t = sorted_by(s.drop_last(), crit, dir);
        let y = s.last();
        lemma_sorted_pids(s.drop_last(), crit, dir);
        let p = insert_pos(t, y, crit, dir);
        lemma_insert_pos_bounds(t, y, crit, dir);
        let head = t.take(p);
        let tail = t.skip(p);
        assert(t =~= head + tail);
        assert(t.insert(p, y) =~= head.push(y) + tail);
        lemma_pids_concat(head.push(y), tail);
        lemma_pids_push(head, y);
        lemma_pids_concat(head, tail);
        lemma_pids_push(s.drop_last(), y);
        assert(s.drop_last().push(y) =~= s);
        assert(forest_pid_list(sorted_by(s, crit, dir)).to_multiset() =~= forest_pid_list(s).to_multiset());
    }
}

proof fn lemma_row_pids_concat(a: Seq<(ProcessInfo, int)>, b: Seq<(ProcessInfo, int)>)
    ensures
        row_pid_list(a + b).to_multiset() == row_pid_list(a).to_multiset().add(row_pid_list(b).to_multiset()),
{
    assert(row_pid_list(a + b) =~= row_pid_list(a) + row_pid_list(b));
    vstd::seq_lib::lemma_multiset_commutative(row_pid_list(a), row_pid_list(b));
}

proof fn lemma_node_rows_within(
    n: ProcessInfo,
    d0: int,
    crit: SortCriterion,
    dir: SortDirection,
    filter: ProcessFilter,
    user: Seq<char>,
    open: Set<u32>,
)
    ensures
        row_pid_list(tree_node(n, d0, crit, dir, filter, user, open)).to_multiset().subset_of(
            subtree_pid_list(n).to_multiset(),
        ),
    decreases n, 0int,
{
    broadcast use vstd::multiset::group_multiset_axioms;
    broadcast use vstd::seq_lib::group_to_multiset_ensures;

    let kids = n.child@;
    let below = if passes(n, filter, user) {
        d0 + 1
    } else {
        d0
    };
    let p = tree_prefix(kids, kids.len() as int, below, crit, dir, filter, user, open);
    lemma_prefix_rows_within(kids, kids.len() as int, below, crit, dir, filter, user, open);
    lemma_sorted_pids(kids, crit, dir);
    assert(sorted_by(kids, crit, dir).take(kids.len() as int) =~= sorted_by(kids, crit, dir)) by {
        lemma_sorted_from(kids, crit, dir);
    }
    let own = seq![n.pid];
    assert(subtree_pid_list(n) =~= own + forest_pid_list(kids));
    vstd::seq_lib::lemma_multiset_commutative(own, forest_pid_list(kids));
    let rows = tree_node(n, d0, crit, dir, filter, user, open);
    if passes(n, filter, user) {
        if open.contains(n.pid) {
            assert(rows == seq![(n, d0)] + p);
            lemma_row_pids_concat(seq![(n, d0)], p);
            assert(row_pid_list(seq![(n, d0)]) =~= own);
        } else {
            assert(rows == seq![(n, d0)]);
            assert(row_pid_list(rows) =~= own);
        }
    } else {
        assert(rows == p);
    }
}

proof fn lemma_prefix_rows_within(
    level: Seq<ProcessInfo>,
    k: int,
    d0: int,
    crit: SortCriterion,
    dir: SortDirection,
    filter: ProcessFilter,
    user: Seq<char>,
    open: Set<u32>,
)
    requires
        0 <= k <= level.len(),
    ensures
        row_pid_list(tree_prefix(level, k, d0, crit, dir, filter, user, open)).to_multiset().subset_of(
            forest_pid_list(sorted_by(level, crit, dir).take(k)).to_multiset(),
        ),
    decreases level, k,
{
    broadcast use vstd::multiset::group_multiset_axioms;
    broadcast use vstd::seq_lib::group_to_multiset_ensures;

    lemma_sorted_from(level, crit, dir);
    let sorted = sorted_by(level, crit, dir);
    if k > 0 {
        let jj = choose|jj: int| 0 <= jj < level.len() && level[jj] == sorted[k - 1];
        assert(decreases_to!(level => level[jj]));
        let y = sorted[k - 1];
        lemma_prefix_rows_within(level, k - 1, d0, crit, dir, filter, user, open);
        lemma_node_rows_within(y, d0, crit, dir, filter, user, open);
        let a = tree_prefix(level, k - 1, d0, crit, dir, filter, user, open);
        let b = tree_node(y, d0, crit, dir, filter, user, open);
        assert(tree_prefix(level, k, d0, crit, dir, filter, user, open) == a + b);
        lemma_row_pids_concat(a, b);
        assert(sorted.take(k) =~= sorted.take(k - 1).push(y));
        lemma_pids_push(sorted.take(k - 1), y);
    } else {
        assert(tree_prefix(level, k, d0, crit, dir, filter, user, open) =~= Seq::<(ProcessInfo, int)>::empty());
        assert(row_pid_list(tree_prefix(level, k, d0, crit, dir, filter, user, open)) =~= Seq::<u32>::empty());
    }
}

/// In a forest whose pids are distinct, the tree view shows each record at
/// most once: no pid stands in two rows.
pub proof fn tree_rows_distinct(
    forest: Seq<ProcessInfo>,
    crit: SortCriterion,
    dir: SortDirection,
    filter: ProcessFilter,
    user: Seq<char>,
    open: Set<u32>,
)
    requires
        forest_pid_list(forest).no_duplicates(),
    ensures
        row_pid_list(tree_rows(forest, crit, dir, filter, user, open)).no_duplicates(),
{
    broadcast use vstd::multiset::group_multiset_axioms;

    let rows = row_pid_list(tree_rows(forest, crit, dir, filter, user, open));
    lemma_prefix_rows_within(forest, forest.len() as int, 0, crit, dir, filter, user, open);
    lemma_sorted_from(forest, crit, dir);
    assert(sorted_by(forest, crit, dir).take(forest.len() as int) =~= sorted_by(forest, crit, dir));
    lemma_sorted_pids(forest, crit, dir);
    forest_pid_list(forest).lemma_multiset_has_no_duplicates();
    assert forall|x: u32| rows.to_multiset().contains(x) implies rows.to_multiset().count(x) == 1 by {
        assert(forest_pid_list(forest).to_multiset().contains(x));
    }
    rows.lemma_multiset_has_no_duplicates_conv();
}

} // verus!
