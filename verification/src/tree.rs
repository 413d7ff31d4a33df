//! The tree assembler: turns a flat sequence of records into a forest of
//! depth-annotated nodes, severing cyclic or dangling parent links.
use vstd::prelude::*;
use vstd::multiset::Multiset;

use crate::model::Record;

verus! {

/// A node of the assembled forest: one record, its computed depth (0 for
/// roots) and the ordered subtrees of its child records.
#[derive(Debug)]
pub struct Node {
    /// The record this node wraps.
    pub record: Record,
    /// Distance from the root of this node's tree.
    pub depth: usize,
    /// Subtrees of the records whose parent link resolves to this record,
    /// in input order.
    pub children: Vec<Node>,
}

/// Multiset of the records carried by the first `k` nodes of a sibling
/// sequence and all their descendants.
pub open spec fn forest_ms_upto(s: Seq<Node>, k: int) -> Multiset<Record>
    decreases s, k,
{
    if k <= 0 || k > s.len() {
        Multiset::empty()
    } else {
        forest_ms_upto(s, k - 1).add(node_ms(s[k - 1]))
    }
}

/// Multiset of the records carried by a node and all its descendants.
pub open spec fn node_ms(n: Node) -> Multiset<Record>
    decreases n,
{
    forest_ms_upto(n.children@, n.children@.len() as int).insert(n.record)
}

/// Multiset of the records carried by a whole forest.
pub open spec fn forest_ms(s: Seq<Node>) -> Multiset<Record> {
    forest_ms_upto(s, s.len() as int)
}

/// The parent reference of a record, as a sequence of characters.
pub open spec fn parent_ref(r: Record) -> Option<Seq<char>> {
    match r.parent_id {
        Some(p) => Some(p@),
        None => None,
    }
}

/// No two records of the input share an identifier.
pub open spec fn ids_unique(s: Seq<Record>) -> bool {
    forall|i: int, j: int| 0 <= i < j < s.len() ==> s[i].id@ != s[j].id@
}

/// Record `i` names record `j` as its parent.
pub open spec fn links_to(s: Seq<Record>, i: int, j: int) -> bool {
    &&& 0 <= i < s.len()
    &&& 0 <= j < s.len()
    &&& parent_ref(s[i]) == Some(s[j].id@)
}

/// The index of the record that `i`'s parent reference resolves to, if any.
/// A reference that names no record of the input resolves to nothing.
pub open spec fn resolved_parent(s: Seq<Record>, i: int) -> Option<int> {
    if exists|j: int| links_to(s, i, j) {
        Some(choose|j: int| links_to(s, i, j))
    } else {
        None
    }
}

/// Whether walking the resolved parent chain upward from `j` reaches
/// `target` within `fuel` steps.
pub open spec fn walk_hits(s: Seq<Record>, target: int, j: int, fuel: nat) -> bool
    decreases fuel,
{
    if fuel == 0 {
        false
    } else if j == target {
        true
    } else {
        match resolved_parent(s, j) {
            Some(p) => walk_hits(s, target, p, (fuel - 1) as nat),
            None => false,
        }
    }
}

/// A record's parent link is severed when the resolved parent chain above it
/// leads back to the record itself: attaching it would close a cycle.
pub open spec fn severed(s: Seq<Record>, i: int) -> bool {
    match resolved_parent(s, i) {
        Some(p) => walk_hits(s, i, p, s.len() as nat),
        None => false,
    }
}

/// The parent the assembler actually uses: the resolved parent, unless the
/// link is severed for closing a cycle.
pub open spec fn eff_parent(s: Seq<Record>, i: int) -> Option<int> {
    if severed(s, i) {
        None
    } else {
        resolved_parent(s, i)
    }
}

/// The `k`-step ancestor of `i` along effective parent links.
pub open spec fn anc(s: Seq<Record>, i: int, k: nat) -> Option<int>
    decreases k,
{
    if k == 0 {
        Some(i)
    } else {
        match anc(s, i, (k - 1) as nat) {
            Some(j) => eff_parent(s, j),
            None => None,
        }
    }
}

/// The depth of record `i` in the assembled forest: the number of effective
/// parent links between it and the root of its tree.
pub open spec fn depth_of(s: Seq<Record>, i: int) -> nat {
    choose|d: nat| (#[trigger] anc(s, i, d)) is Some && anc(s, i, (d + 1) as nat) is None
}

/// The indices below `m`, in ascending order, whose effective parent is
/// `par` (`None` for the roots).
pub open spec fn linked_upto(s: Seq<Record>, par: Option<int>, m: int) -> Seq<int>
    decreases m,
{
    if m <= 0 {
        Seq::empty()
    } else if eff_parent(s, m - 1) == par {
        linked_upto(s, par, m - 1).push(m - 1)
    } else {
        linked_upto(s, par, m - 1)
    }
}

/// The children of record `i`, in input order.
pub open spec fn child_indices(s: Seq<Record>, i: int) -> Seq<int> {
    linked_upto(s, Some(i), s.len() as int)
}

/// The roots of the forest, in input order.
pub open spec fn root_indices(s: Seq<Record>) -> Seq<int> {
    linked_upto(s, None, s.len() as int)
}

/// The node `n` is exactly the assembled subtree of record `i`: it wraps
/// that record, carries its depth, and its children are the subtrees of the
/// records whose effective parent is `i`, in input order.
pub open spec fn represents(s: Seq<Record>, n: Node, i: int) -> bool
    decreases n,
{
    &&& 0 <= i < s.len()
    &&& n.record == s[i]
    &&& n.depth as nat == depth_of(s, i)
    &&& n.children@.len() == child_indices(s, i).len()
    &&& forall|k: int|
        0 <= k < n.children@.len() ==> represents(
            s,
            #[trigger] n.children@[k],
            child_indices(s, i)[k],
        )
}

proof fn lemma_resolved_links(s: Seq<Record>, i: int)
    requires
        resolved_parent(s, i) is Some,
    ensures
        links_to(s, i, resolved_parent(s, i)->Some_0),
{
    let j = choose|j: int| links_to(s, i, j);
    assert(links_to(s, i, j));
}

proof fn lemma_anc_in_range(s: Seq<Record>, i: int, k: nat)
    requires
        0 <= i < s.len(),
        anc(s, i, k) is Some,
    ensures
        0 <= anc(s, i, k)->Some_0 < s.len(),
    decreases k,
{
    if k > 0 {
        let prev = anc(s, i, (k - 1) as nat);
        match prev {
            Some(j) => {
                if eff_parent(s, j) is Some {
                    lemma_resolved_links(s, j);
                }
            },
            None => {},
        }
    }
}

proof fn lemma_anc_none_mono(s: Seq<Record>, i: int, k: nat, k2: nat)
    requires
        k <= k2,
        anc(s, i, k) is None,
    ensures
        anc(s, i, k2) is None,
    decreases k2 - k,
{
    if k2 > k {
        lemma_anc_none_mono(s, i, k, (k2 - 1) as nat);
    }
}

proof fn lemma_anc_compose(s: Seq<Record>, i: int, a: nat, b: nat)
    ensures
        anc(s, i, a + b) == (match anc(s, i, a) {
            Some(j) => anc(s, j, b),
            None => None::<int>,
        }),
    decreases b,
{
    if b > 0 {
        lemma_anc_compose(s, i, a, (b - 1) as nat);
        assert((a + b - 1) as nat + 1 == a + b);
    }
}

proof fn lemma_cycle_hits(s: Seq<Record>, v: int, l: nat, m: nat, fuel: nat)
    requires
        1 <= l <= m,
        0 <= v < s.len(),
        anc(s, v, m) == Some(v),
        fuel >= m - l + 1,
    ensures
        anc(s, v, l) is Some,
        walk_hits(s, v, anc(s, v, l)->Some_0, fuel),
    decreases m - l,
{
    if anc(s, v, l) is None {
        lemma_anc_none_mono(s, v, l, m);
        assert(false);
    }
    let u = anc(s, v, l)->Some_0;
    if u != v {
        assert(l < m);
        lemma_anc_compose(s, v, l, 1);
        assert(anc(s, v, (l + 1) as nat) == eff_parent(s, u));
        if anc(s, v, (l + 1) as nat) is None {
            lemma_anc_none_mono(s, v, (l + 1) as nat, m);
            assert(false);
        }
        assert(eff_parent(s, u) is Some);
        assert(!severed(s, u));
        assert(resolved_parent(s, u) == eff_parent(s, u));
        lemma_cycle_hits(s, v, (l + 1) as nat, m, (fuel - 1) as nat);
    }
}

/// Along effective parent links, every chain ends: the severing of cyclic
/// links guarantees that no record has an ancestor chain as long as the
/// whole input.
proof fn lemma_anc_terminates(s: Seq<Record>, i: int)
    requires
        0 <= i < s.len(),
    ensures
        anc(s, i, s.len() as nat) is None,
{
    let n = s.len() as int;
    if anc(s, i, n as nat) is Some {
        assert forall|k: nat| k <= n implies anc(s, i, k) is Some by {
            if anc(s, i, k) is None {
                lemma_anc_none_mono(s, i, k, n as nat);
            }
        }
        let cs = Seq::new((n + 1) as nat, |k: int| anc(s, i, k as nat)->Some_0);
        assert forall|k: int| 0 <= k <= n implies 0 <= #[trigger] cs[k] < n by {
            lemma_anc_in_range(s, i, k as nat);
        }
        if cs.no_duplicates() {
            cs.unique_seq_to_set();
            vstd::set_lib::lemma_int_range(0, n);
            assert(cs.to_set().subset_of(vstd::set_lib::set_int_range(0, n))) by {
                assert forall|x: int| cs.to_set().contains(x) implies 0 <= x < n by {
                    let k = choose|k: int| 0 <= k < cs.len() && cs[k] == x;
                }
            }
            vstd::set_lib::lemma_len_subset(cs.to_set(), vstd::set_lib::set_int_range(0, n));
            assert(false);
        }
        let (a, b) = choose|a: int, b: int|
            0 <= a < b <= n && #[trigger] cs[a] == #[trigger] cs[b];
        assert(0 <= a < b <= n && cs[a] == cs[b]) by {
            let (x, y) = choose|x: int, y: int|
                0 <= x < cs.len() && 0 <= y < cs.len() && x != y && #[trigger] cs[x]
                    == #[trigger] cs[y];
            if x < y {
                assert(0 <= x < y <= n && cs[x] == cs[y]);
            } else {
                assert(0 <= y < x <= n && cs[y] == cs[x]);
            }
        }
        let v = cs[a];
        let m = (b - a) as nat;
        lemma_anc_compose(s, i, a as nat, m);
        assert(anc(s, v, m) == Some(v));
        lemma_anc_in_range(s, i, a as nat);
        lemma_cycle_hits(s, v, 1, m, n as nat);
        assert(anc(s, v, 0) == Some(v));
        assert(anc(s, v, 1) == eff_parent(s, v));
        assert(walk_hits(s, v, eff_parent(s, v)->Some_0, n as nat));
        assert(severed(s, v));
        assert(false);
    }
}

/// Every record has a well-defined depth: the unique number of steps to
/// the root of its chain.
proof fn lemma_depth_transition(s: Seq<Record>, i: int, k: nat) -> (d: nat)
    requires
        0 <= i < s.len(),
        k <= s.len(),
        anc(s, i, k) is Some,
        anc(s, i, s.len() as nat) is None,
    ensures
        k <= d,
        anc(s, i, d) is Some,
        anc(s, i, (d + 1) as nat) is None,
    decreases s.len() - k,
{
    if anc(s, i, (k + 1) as nat) is None {
        k
    } else {
        assert(k < s.len());
        lemma_depth_transition(s, i, (k + 1) as nat)
    }
}

proof fn lemma_depth_unique(s: Seq<Record>, i: int, d: nat)
    requires
        0 <= i < s.len(),
        anc(s, i, d) is Some,
        anc(s, i, (d + 1) as nat) is None,
    ensures
        depth_of(s, i) == d,
{
    let d2 = depth_of(s, i);
    assert((#[trigger] anc(s, i, d)) is Some && anc(s, i, (d + 1) as nat) is None);
    assert(anc(s, i, d2) is Some && anc(s, i, (d2 + 1) as nat) is None);
    if d2 < d {
        lemma_anc_none_mono(s, i, (d2 + 1) as nat, d);
        assert(false);
    }
    if d2 > d {
        lemma_anc_none_mono(s, i, (d + 1) as nat, d2);
        assert(false);
    }
}

proof fn lemma_depth_props(s: Seq<Record>, i: int)
    requires
        0 <= i < s.len(),
    ensures
        anc(s, i, depth_of(s, i)) is Some,
        anc(s, i, (depth_of(s, i) + 1) as nat) is None,
        depth_of(s, i) < s.len(),
{
    lemma_anc_terminates(s, i);
    let d0 = lemma_depth_transition(s, i, 0);
    lemma_depth_unique(s, i, d0);
    if depth_of(s, i) >= s.len() {
        lemma_anc_none_mono(s, i, s.len() as nat, depth_of(s, i));
        assert(false);
    }
}

/// A record with no effective parent sits at depth 0.
proof fn lemma_depth_root(s: Seq<Record>, i: int)
    requires
        0 <= i < s.len(),
        eff_parent(s, i) is None,
    ensures
        depth_of(s, i) == 0,
{
    assert(anc(s, i, 0) == Some(i));
    assert(anc(s, i, 1) == eff_parent(s, i));
    lemma_depth_unique(s, i, 0);
}

/// A record's depth is one more than its effective parent's.
proof fn lemma_depth_child(s: Seq<Record>, i: int, p: int)
    requires
        0 <= i < s.len(),
        eff_parent(s, i) == Some(p),
    ensures
        0 <= p < s.len(),
        depth_of(s, i) == depth_of(s, p) + 1,
{
    lemma_resolved_links(s, i);
    lemma_depth_props(s, p);
    let dp = depth_of(s, p);
    lemma_anc_compose(s, i, 1, dp);
    lemma_anc_compose(s, i, 1, (dp + 1) as nat);
    assert(anc(s, i, 0) == Some(i));
    assert(anc(s, i, 1) == Some(p));
    assert(anc(s, i, (1 + dp) as nat) == anc(s, p, dp));
    assert(anc(s, i, (1 + dp + 1) as nat) == anc(s, p, (dp + 1) as nat));
    lemma_depth_unique(s, i, (dp + 1) as nat);
}

/// An optional index, widened for use in specifications.
pub open spec fn opt_idx(o: Option<usize>) -> Option<int> {
    match o {
        Some(u) => Some(u as int),
        None => None,
    }
}

/// Multiset of the records held by the not-yet-placed slots.
pub open spec fn slots_ms(os: Seq<Option<Record>>) -> Multiset<Record>
    decreases os.len(),
{
    if os.len() == 0 {
        Multiset::empty()
    } else {
        slots_ms(os.drop_last()).add(opt_rec_ms(os.last()))
    }
}

/// Multiset of one optional record.
pub open spec fn opt_rec_ms(o: Option<Record>) -> Multiset<Record> {
    match o {
        Some(r) => Multiset::empty().insert(r),
        None => Multiset::empty(),
    }
}

/// Multiset of the records held by the already-built subtrees.
pub open spec fn built_ms(bs: Seq<Option<Node>>) -> Multiset<Record>
    decreases bs.len(),
{
    if bs.len() == 0 {
        Multiset::empty()
    } else {
        built_ms(bs.drop_last()).add(opt_node_ms(bs.last()))
    }
}

/// Multiset of the records of one optional subtree.
pub open spec fn opt_node_ms(o: Option<Node>) -> Multiset<Record> {
    match o {
        Some(n) => node_ms(n),
        None => Multiset::empty(),
    }
}

proof fn lemma_slots_ms_update(os: Seq<Option<Record>>, j: int, v: Option<Record>)
    requires
        0 <= j < os.len(),
    ensures
        slots_ms(os.update(j, v)).add(opt_rec_ms(os[j])) == slots_ms(os).add(opt_rec_ms(v)),
    decreases os.len(),
{
    let os2 = os.update(j, v);
    if j == os.len() - 1 {
        assert(os2.drop_last() =~= os.drop_last());
        assert(slots_ms(os2).add(opt_rec_ms(os[j])) =~= slots_ms(os).add(opt_rec_ms(v)));
    } else {
        assert(os2.drop_last() =~= os.drop_last().update(j, v));
        assert(os2.last() == os.last());
        lemma_slots_ms_update(os.drop_last(), j, v);
        assert(os.drop_last()[j] == os[j]);
        assert(slots_ms(os2) == slots_ms(os2.drop_last()).add(opt_rec_ms(os2.last())));
        assert(slots_ms(os) == slots_ms(os.drop_last()).add(opt_rec_ms(os.last())));
        assert forall|x: Record|
            slots_ms(os2).add(opt_rec_ms(os[j])).count(x) == slots_ms(os).add(
                opt_rec_ms(v),
            ).count(x) by {
            let a2 = slots_ms(os2.drop_last());
            let a = slots_ms(os.drop_last());
            let l = opt_rec_ms(os.last());
            assert(slots_ms(os2).count(x) == a2.add(l).count(x));
            assert(slots_ms(os).count(x) == a.add(l).count(x));
            assert(a2.add(opt_rec_ms(os[j])).count(x) == a.add(opt_rec_ms(v)).count(x));
        }
        assert(slots_ms(os2).add(opt_rec_ms(os[j])) =~= slots_ms(os).add(opt_rec_ms(v)));
    }
}

proof fn lemma_built_ms_update(bs: Seq<Option<Node>>, j: int, v: Option<Node>)
    requires
        0 <= j < bs.len(),
    ensures
        built_ms(bs.update(j, v)).add(opt_node_ms(bs[j])) == built_ms(bs).add(opt_node_ms(v)),
    decreases bs.len(),
{
    let bs2 = bs.update(j, v);
    if j == bs.len() - 1 {
        assert(bs2.drop_last() =~= bs.drop_last());
        assert(built_ms(bs2).add(opt_node_ms(bs[j])) =~= built_ms(bs).add(opt_node_ms(v)));
    } else {
        assert(bs2.drop_last() =~= bs.drop_last().update(j, v));
        assert(bs2.last() == bs.last());
        lemma_built_ms_update(bs.drop_last(), j, v);
        assert(bs.drop_last()[j] == bs[j]);
        assert(built_ms(bs2) == built_ms(bs2.drop_last()).add(opt_node_ms(bs2.last())));
        assert(built_ms(bs) == built_ms(bs.drop_last()).add(opt_node_ms(bs.last())));
        assert forall|x: Record|
            built_ms(bs2).add(opt_node_ms(bs[j])).count(x) == built_ms(bs).add(
                opt_node_ms(v),
            ).count(x) by {
            let a2 = built_ms(bs2.drop_last());
            let a = built_ms(bs.drop_last());
            let l = opt_node_ms(bs.last());
            assert(built_ms(bs2).count(x) == a2.add(l).count(x));
            assert(built_ms(bs).count(x) == a.add(l).count(x));
            assert(a2.add(opt_node_ms(bs[j])).count(x) == a.add(opt_node_ms(v)).count(x));
        }
        assert(built_ms(bs2).add(opt_node_ms(bs[j])) =~= built_ms(bs).add(opt_node_ms(v)));
    }
}

proof fn lemma_built_ms_all_none(bs: Seq<Option<Node>>)
    requires
        forall|t: int| 0 <= t < bs.len() ==> bs[t] is None,
    ensures
        built_ms(bs) == Multiset::<Record>::empty(),
    decreases bs.len(),
{
    if bs.len() > 0 {
        lemma_built_ms_all_none(bs.drop_last());
        assert(built_ms(bs) =~= Multiset::<Record>::empty());
    }
}

proof fn lemma_slots_ms_all_none(os: Seq<Option<Record>>)
    requires
        forall|t: int| 0 <= t < os.len() ==> os[t] is None,
    ensures
        slots_ms(os) == Multiset::<Record>::empty(),
    decreases os.len(),
{
    if os.len() > 0 {
        lemma_slots_ms_all_none(os.drop_last());
        assert(slots_ms(os) =~= Multiset::<Record>::empty());
    }
}

/// `forest_ms_upto` reads only the first `m` entries.
proof fn lemma_forest_ms_prefix(a: Seq<Node>, b: Seq<Node>, m: int)
    requires
        0 <= m <= a.len(),
        m <= b.len(),
        forall|k: int| 0 <= k < m ==> a[k] == b[k],
    ensures
        forest_ms_upto(a, m) == forest_ms_upto(b, m),
    decreases m,
{
    if m > 0 {
        lemma_forest_ms_prefix(a, b, m - 1);
    }
}

/// Depths are consistent below this node: every child is one level deeper
/// than its parent.
pub open spec fn node_wf(n: Node) -> bool
    decreases n,
{
    forall|k: int|
        0 <= k < n.children@.len() ==> (#[trigger] n.children@[k]).depth as int == n.depth as int
            + 1 && node_wf(n.children@[k])
}


proof fn lemma_links_unique(s: Seq<Record>, i: int, j1: int, j2: int)
    requires
        ids_unique(s),
        links_to(s, i, j1),
        links_to(s, i, j2),
    ensures
        j1 == j2,
{
    if j1 < j2 {
        assert(s[j1].id@ != s[j2].id@);
    }
    if j2 < j1 {
        assert(s[j2].id@ != s[j1].id@);
    }
}

/// The one fatal condition of assembly: two records share an identifier.
#[derive(Debug, Clone, Copy, PartialEq, Eq, Structural)]
pub enum AssemblyError {
    /// Two records of the input carry the same identifier, so no tree can
    /// say which of them a parent reference means.
    DuplicateID,
}

fn has_duplicate(records: &Vec<Record>) -> (dup: bool)
    ensures
        dup == !ids_unique(records@),
{
    let ghost s = records@;
    let n = records.len();
    let mut i: usize = 0;
    while i < n
        invariant
            n == s.len(),
            records@ == s,
            i <= n,
            forall|a: int, b: int| 0 <= a < b < s.len() && a < i ==> s[a].id@ != s[b].id@,
        decreases n - i,
    {
        let mut j: usize = i + 1;
        while j < n
            invariant
                n == s.len(),
                records@ == s,
                i < j <= n,
                forall|b: int| i < b < j ==> s[i as int].id@ != s[b].id@,
            decreases n - j,
        {
            if records[i].id == records[j].id {
                return true;
            }
            j += 1;
        }
        i += 1;
    }
    false
}

fn resolved_parents(records: &Vec<Record>) -> (o: Vec<Option<usize>>)
    requires
        ids_unique(records@),
    ensures
        o@.len() == records@.len(),
        forall|i: int| 0 <= i < records@.len() ==> opt_idx(o@[i]) == resolved_parent(records@, i),
{
    let ghost s = records@;
    let n = records.len();
    let mut o: Vec<Option<usize>> = Vec::new();
    let mut i: usize = 0;
    while i < n
        invariant
            n == s.len(),
            records@ == s,
            ids_unique(s),
            i <= n,
            o@.len() == i,
            forall|t: int| 0 <= t < i ==> opt_idx(o@[t]) == resolved_parent(s, t),
        decreases n - i,
    {
        let mut found: Option<usize> = None;
        match &records[i].parent_id {
            None => {
                proof {
                    assert(forall|j: int| !links_to(s, i as int, j));
                }
            },
            Some(pid) => {
                let mut j: usize = 0;
                while j < n
                    invariant_except_break
                        n == s.len(),
                        records@ == s,
                        i < n,
                        j <= n,
                        found is None,
                        parent_ref(s[i as int]) == Some(pid@),
                        forall|b: int| 0 <= b < j ==> !links_to(s, i as int, b),
                    ensures
                        match found {
                            None => forall|b: int| 0 <= b < s.len() ==> !links_to(s, i as int, b),
                            Some(jj) => links_to(s, i as int, jj as int),
                        },
                    decreases n - j,
                {
                    if records[j].id == *pid {
                        found = Some(j);
                        break;
                    }
                    j += 1;
                }
                proof {
                    match found {
                        None => {
                            assert(forall|b: int| !links_to(s, i as int, b));
                        },
                        Some(jj) => {
                            assert(links_to(s, i as int, jj as int));
                            let j2 = choose|j2: int| links_to(s, i as int, j2);
                            lemma_links_unique(s, i as int, jj as int, j2);
                        },
                    }
                }
            },
        }
        o.push(found);
        i += 1;
    }
    o
}

fn effective_parents(records: &Vec<Record>, orig: &Vec<Option<usize>>) -> (eff: Vec<
    Option<usize>,
>)
    requires
        orig@.len() == records@.len(),
        forall|i: int| 0 <= i < records@.len() ==> opt_idx(orig@[i]) == resolved_parent(
            records@,
            i,
        ),
    ensures
        eff@.len() == records@.len(),
        forall|i: int| 0 <= i < records@.len() ==> opt_idx(eff@[i]) == eff_parent(records@, i),
{
    let ghost s = records@;
    let n = records.len();
    let mut eff: Vec<Option<usize>> = Vec::new();
    let mut i: usize = 0;
    while i < n
        invariant
            n == s.len(),
            records@ == s,
            orig@.len() == n,
            forall|t: int| 0 <= t < n ==> opt_idx(orig@[t]) == resolved_parent(s, t),
            i <= n,
            eff@.len() == i,
            forall|t: int| 0 <= t < i ==> opt_idx(eff@[t]) == eff_parent(s, t),
        decreases n - i,
    {
        match orig[i] {
            None => {
                eff.push(None);
            },
            Some(p) => {
                proof {
                    lemma_resolved_links(s, i as int);
                }
                let mut cur: usize = p;
                let mut fuel: usize = n;
                let mut hit: bool = false;
                loop
                    invariant_except_break
                        n == s.len(),
                        records@ == s,
                        orig@.len() == n,
                        forall|t: int| 0 <= t < n ==> opt_idx(orig@[t]) == resolved_parent(s, t),
                        i < n,
                        0 <= cur < n,
                        fuel <= n,
                        hit == false,
                        walk_hits(s, i as int, p as int, n as nat) == walk_hits(
                            s,
                            i as int,
                            cur as int,
                            fuel as nat,
                        ),
                    ensures
                        hit == walk_hits(s, i as int, p as int, n as nat),
                    decreases fuel,
                {
                    if fuel == 0 {
                        break;
                    }
                    if cur == i {
                        hit = true;
                        break;
                    }
                    match orig[cur] {
                        Some(q) => {
                            proof {
                                lemma_resolved_links(s, cur as int);
                            }
                            cur = q;
                            fuel -= 1;
                        },
                        None => {
                            break;
                        },
                    }
                }
                if hit {
                    assert(severed(s, i as int));
                    eff.push(None);
                } else {
                    assert(!severed(s, i as int));
                    eff.push(Some(p));
                }
            },
        }
        i += 1;
    }
    eff
}

fn compute_depths(records: &Vec<Record>, eff: &Vec<Option<usize>>) -> (dep: Vec<usize>)
    requires
        eff@.len() == records@.len(),
        forall|i: int| 0 <= i < records@.len() ==> opt_idx(eff@[i]) == eff_parent(records@, i),
    ensures
        dep@.len() == records@.len(),
        forall|i: int| 0 <= i < records@.len() ==> dep@[i] as nat == depth_of(records@, i),
{
    let ghost s = records@;
    let n = records.len();
    let mut dep: Vec<usize> = Vec::new();
    let mut i: usize = 0;
    while i < n
        invariant
            n == s.len(),
            records@ == s,
            eff@.len() == n,
            forall|t: int| 0 <= t < n ==> opt_idx(eff@[t]) == eff_parent(s, t),
            i <= n,
            dep@.len() == i,
            forall|t: int| 0 <= t < i ==> dep@[t] as nat == depth_of(s, t),
        decreases n - i,
    {
        let mut d: usize = 0;
        let mut j: usize = i;
        proof {
            lemma_anc_terminates(s, i as int);
        }
        loop
            invariant_except_break
                n == s.len(),
                records@ == s,
                eff@.len() == n,
                forall|t: int| 0 <= t < n ==> opt_idx(eff@[t]) == eff_parent(s, t),
                i < n,
                0 <= j < n,
                d < n,
                anc(s, i as int, d as nat) == Some(j as int),
                anc(s, i as int, s.len() as nat) is None,
            ensures
                anc(s, i as int, d as nat) == Some(j as int),
                eff_parent(s, j as int) is None,
            decreases n - d,
        {
            match eff[j] {
                None => {
                    break;
                },
                Some(q) => {
                    proof {
                        assert(anc(s, i as int, (d + 1) as nat) == eff_parent(s, j as int));
                        assert(anc(s, i as int, (d + 1) as nat) == Some(q as int));
                        lemma_resolved_links(s, j as int);
                        if d + 1 == n {
                            assert(false);
                        }
                    }
                    j = q;
                    d += 1;
                },
            }
        }
        proof {
            assert(anc(s, i as int, (d + 1) as nat) is None);
            lemma_depth_unique(s, i as int, d as nat);
        }
        dep.push(d);
        i += 1;
    }
    dep
}


/// Whether the subtree of `t` has already been consumed by a parent built
/// during the current pass: its effective parent lies before position `i`.
pub open spec fn consumed_by(s: Seq<Record>, t: int, i: int) -> bool {
    match eff_parent(s, t) {
        Some(p) => p < i,
        None => false,
    }
}

/// Every index listed for a parent is in range and indeed linked to it.
proof fn lemma_linked_upto_elems(s: Seq<Record>, par: Option<int>, m: int)
    requires
        m <= s.len(),
    ensures
        forall|k: int|
            0 <= k < linked_upto(s, par, m).len() ==> 0 <= #[trigger] linked_upto(s, par, m)[k]
                < m && eff_parent(s, linked_upto(s, par, m)[k]) == par,
    decreases m,
{
    if m > 0 {
        lemma_linked_upto_elems(s, par, m - 1);
    }
}

/// Moves every record into its own slot, so that building a node can later
/// take the record without copying it.
fn place_records(records: Vec<Record>) -> (recs: Vec<Option<Record>>)
    ensures
        recs@.len() == records@.len(),
        forall|t: int| 0 <= t < recs@.len() ==> recs@[t] == Some(records@[t]),
        slots_ms(recs@) == records@.to_multiset(),
{
    let ghost s = records@;
    let n = records.len();
    let mut source = records;
    let mut recs: Vec<Option<Record>> = Vec::new();
    proof {
        broadcast use vstd::seq_lib::group_to_multiset_ensures;
        assert(s.take(0) =~= Seq::<Record>::empty());
        assert forall|x: Record| s.take(0).to_multiset().count(x) == 0 by {
            if s.take(0).to_multiset().count(x) > 0 {
                assert(s.take(0).contains(x));
            }
        }
        assert(slots_ms(recs@) =~= s.take(0).to_multiset());
    }
    while source.len() > 0
        invariant
            n == s.len(),
            recs@.len() + source@.len() == n,
            forall|t: int| 0 <= t < recs@.len() ==> recs@[t] == Some(s[t]),
            source@ == s.skip(recs@.len() as int),
            slots_ms(recs@) == s.take(recs@.len() as int).to_multiset(),
        decreases source@.len(),
    {
        let ghost k = recs@.len() as int;
        let ghost rpre = recs@;
        let r = source.remove(0);
        recs.push(Some(r));
        proof {
            broadcast use vstd::seq_lib::group_to_multiset_ensures;
            assert(s.skip(k).remove(0) =~= s.skip(k + 1));
            assert(r == s[k]);
            assert(recs@.drop_last() =~= rpre);
            assert(slots_ms(recs@) == slots_ms(rpre).add(opt_rec_ms(Some(r))));
            assert(s.take(k + 1) =~= s.take(k).push(s[k]));
            assert(s.take(k).push(s[k]).to_multiset() =~= s.take(k).to_multiset().insert(s[k]));
            assert forall|x: Record|
                slots_ms(recs@).count(x) == s.take(k + 1).to_multiset().count(x) by {
                assert(slots_ms(recs@).count(x) == slots_ms(rpre).add(
                    opt_rec_ms(Some(r)),
                ).count(x));
                assert(s.take(k + 1).to_multiset().count(x) == s.take(k).to_multiset().insert(
                    s[k],
                ).count(x));
            }
            assert(slots_ms(recs@) =~= s.take(k + 1).to_multiset());
        }
    }
    proof {
        assert(s.take(n as int) =~= s);
    }
    recs
}

/// A row of empty slots, one per record, for the subtrees under
/// construction.
fn blank_nodes(n: usize) -> (built: Vec<Option<Node>>)
    ensures
        built@.len() == n,
        forall|t: int| 0 <= t < n ==> built@[t] is None,
        built_ms(built@) == Multiset::<Record>::empty(),
{
    let mut built: Vec<Option<Node>> = Vec::new();
    let mut t0: usize = 0;
    while t0 < n
        invariant
            t0 <= n,
            built@.len() == t0,
            forall|t: int| 0 <= t < t0 ==> built@[t] is None,
        decreases n - t0,
    {
        built.push(None);
        t0 += 1;
    }
    proof {
        lemma_built_ms_all_none(built@);
    }
    built
}

/// Takes the finished subtrees of record `i`'s children out of their slots,
/// in input order.
#[verifier::loop_isolation(false)]
fn take_children(
    built: &mut Vec<Option<Node>>,
    eff: &Vec<Option<usize>>,
    i: usize,
    Ghost(s): Ghost<Seq<Record>>,
) -> (kids: Vec<Node>)
    requires
        old(built)@.len() == s.len(),
        eff@.len() == s.len(),
        forall|t: int| 0 <= t < s.len() ==> opt_idx(eff@[t]) == eff_parent(s, t),
        i < s.len(),
        forall|t: int| 0 <= t < s.len() && eff_parent(s, t) == Some(i as int)
            ==> old(built)@[t] is Some,
        forall|t: int|
            0 <= t < s.len() && old(built)@[t] is Some ==> represents(s, old(built)@[t]->Some_0, t)
                && node_wf(old(built)@[t]->Some_0),
    ensures
        final(built)@.len() == s.len(),
        forall|t: int| 0 <= t < s.len() ==> final(built)@[t] == (if eff_parent(s, t) == Some(
            i as int,
        ) {
            None::<Node>
        } else {
            old(built)@[t]
        }),
        kids@.len() == child_indices(s, i as int).len(),
        forall|k: int|
            0 <= k < kids@.len() ==> represents(
                s,
                #[trigger] kids@[k],
                child_indices(s, i as int)[k],
            ) && node_wf(kids@[k]),
        built_ms(old(built)@) == built_ms(final(built)@).add(
            forest_ms_upto(kids@, kids@.len() as int),
        ),
{
    let ghost built0 = built@;
    let n = built.len();
    let mut kids: Vec<Node> = Vec::new();
    let mut j: usize = 0;
    while j < n
        invariant
            j <= n,
            built@.len() == n,
            kids@.len() == linked_upto(s, Some(i as int), j as int).len(),
            forall|k: int|
                0 <= k < kids@.len() ==> represents(
                    s,
                    #[trigger] kids@[k],
                    linked_upto(s, Some(i as int), j as int)[k],
                ) && node_wf(kids@[k]),
            forall|t: int| 0 <= t < n ==> built@[t] == (if eff_parent(s, t) == Some(i as int) && t
                < j {
                None::<Node>
            } else {
                built0[t]
            }),
            built_ms(built0) == built_ms(built@).add(forest_ms_upto(kids@, kids@.len() as int)),
        decreases n - j,
    {
        let take_it = match eff[j] {
            Some(p) => p == i,
            None => false,
        };
        if take_it {
            proof {
                assert(eff_parent(s, j as int) == Some(i as int));
                assert(built@[j as int] == built0[j as int]);
                assert(built0[j as int] is Some);
            }
            let ghost bpre = built@;
            let ghost kidspre = kids@;
            let taken = built[j].take();
            let nd = taken.unwrap();
            kids.push(nd);
            proof {
                assert(built@ =~= bpre.update(j as int, None));
                lemma_built_ms_update(bpre, j as int, None);
                assert(built_ms(bpre).add(opt_node_ms(None)) =~= built_ms(bpre));
                assert(built_ms(built@).add(node_ms(nd)) == built_ms(bpre));
                assert(linked_upto(s, Some(i as int), j as int + 1) =~= linked_upto(
                    s,
                    Some(i as int),
                    j as int,
                ).push(j as int));
                assert(kids@.drop_last() =~= kidspre);
                lemma_forest_ms_prefix(kids@, kidspre, kidspre.len() as int);
                assert(forest_ms_upto(kids@, kids@.len() as int) == forest_ms_upto(
                    kidspre,
                    kidspre.len() as int,
                ).add(node_ms(nd)));
                assert forall|x: Record|
                    built_ms(built@).add(forest_ms_upto(kids@, kids@.len() as int)).count(x)
                        == built_ms(bpre).add(
                        forest_ms_upto(kidspre, kidspre.len() as int),
                    ).count(x) by {
                    assert(built_ms(built@).add(node_ms(nd)).count(x) == built_ms(bpre).count(x));
                    assert(forest_ms_upto(kids@, kids@.len() as int).count(x) == forest_ms_upto(
                        kidspre,
                        kidspre.len() as int,
                    ).add(node_ms(nd)).count(x));
                }
                assert(built_ms(built@).add(forest_ms_upto(kids@, kids@.len() as int))
                    =~= built_ms(bpre).add(forest_ms_upto(kidspre, kidspre.len() as int)));
                assert(represents(s, nd, j as int));
            }
        } else {
            proof {
                assert(eff_parent(s, j as int) != Some(i as int));
                assert(linked_upto(s, Some(i as int), j as int + 1) =~= linked_upto(
                    s,
                    Some(i as int),
                    j as int,
                ));
            }
        }
        j += 1;
    }
    kids
}

/// Completes the node of record `i` at depth `d`: takes the subtrees of its
/// children and its record out of their slots and parks the finished
/// subtree in the record's own slot.
#[verifier::rlimit(100)]
fn build_one(
    recs: &mut Vec<Option<Record>>,
    built: &mut Vec<Option<Node>>,
    eff: &Vec<Option<usize>>,
    i: usize,
    d: usize,
    Ghost(s): Ghost<Seq<Record>>,
)
    requires
        old(recs)@.len() == s.len(),
        old(built)@.len() == s.len(),
        eff@.len() == s.len(),
        forall|t: int| 0 <= t < s.len() ==> opt_idx(eff@[t]) == eff_parent(s, t),
        i < s.len(),
        depth_of(s, i as int) == d as nat,
        forall|t: int| 0 <= t < s.len() && eff_parent(s, t) == Some(i as int)
            ==> old(built)@[t] is Some,
        forall|t: int|
            0 <= t < s.len() && old(built)@[t] is Some ==> represents(s, old(built)@[t]->Some_0, t)
                && node_wf(old(built)@[t]->Some_0),
        old(built)@[i as int] is None,
        old(recs)@[i as int] == Some(s[i as int]),
        built_ms(old(built)@).add(slots_ms(old(recs)@)) == s.to_multiset(),
    ensures
        final(recs)@ == old(recs)@.update(i as int, None::<Record>),
        final(built)@.len() == s.len(),
        final(built)@[i as int] is Some,
        represents(s, final(built)@[i as int]->Some_0, i as int),
        node_wf(final(built)@[i as int]->Some_0),
        forall|t: int| 0 <= t < s.len() && t != i ==> final(built)@[t] == (if eff_parent(s, t)
            == Some(i as int) {
            None::<Node>
        } else {
            old(built)@[t]
        }),
        built_ms(final(built)@).add(slots_ms(final(recs)@)) == s.to_multiset(),
{
    let ghost bpre = built@;
    let kids = take_children(built, eff, i, Ghost(s));
    proof {
        lemma_linked_upto_elems(s, Some(i as int), s.len() as int);
    }
    let ghost rpre = recs@;
    proof {
        assert(recs@[i as int] is Some);
    }
    let taken_rec = recs[i].take();
    let rec = taken_rec.unwrap();
    proof {
        assert(recs@ =~= rpre.update(i as int, None));
        lemma_slots_ms_update(rpre, i as int, None);
        assert(slots_ms(rpre).add(opt_rec_ms(None)) =~= slots_ms(rpre));
        assert(slots_ms(recs@).add(opt_rec_ms(Some(rec))) == slots_ms(rpre));
        assert(rec == s[i as int]);
    }
    let ghost kids_view = kids@;
    let node = Node { record: rec, depth: d, children: kids };
    proof {
        assert(node.children@ == kids_view);
        assert(represents(s, node, i as int));
        assert forall|k: int| 0 <= k < node.children@.len() implies (
        #[trigger] node.children@[k]).depth as int == node.depth as int + 1 by {
            let c = child_indices(s, i as int)[k];
            assert(represents(s, node.children@[k], c));
            assert(eff_parent(s, c) == Some(i as int));
            lemma_depth_child(s, c, i as int);
        }
        assert(node_wf(node));
        assert(node_ms(node) =~= forest_ms_upto(kids_view, kids_view.len() as int).add(
            opt_rec_ms(Some(rec)),
        ));
    }
    let ghost bpre2 = built@;
    proof {
        assert(built@[i as int] == (if eff_parent(s, i as int) == Some(i as int) {
            None::<Node>
        } else {
            old(built)@[i as int]
        }));
        assert(bpre2[i as int] is None);
    }
    built[i] = Some(node);
    proof {
        assert(built@ =~= bpre2.update(i as int, Some(node)));
        lemma_built_ms_update(bpre2, i as int, Some(node));
        assert(built_ms(bpre2).add(opt_node_ms(None)) =~= built_ms(bpre2));
        assert(built_ms(built@) == built_ms(bpre2).add(node_ms(node)));
        assert forall|x: Record|
            built_ms(built@).add(slots_ms(recs@)).count(x) == s.to_multiset().count(x) by {
            assert(built_ms(built@).count(x) == built_ms(bpre2).add(node_ms(node)).count(x));
            assert(built_ms(bpre).count(x) == built_ms(bpre2).add(
                forest_ms_upto(kids_view, kids_view.len() as int),
            ).count(x));
            assert(node_ms(node).count(x) == forest_ms_upto(
                kids_view,
                kids_view.len() as int,
            ).add(opt_rec_ms(Some(rec))).count(x));
            assert(slots_ms(rpre).count(x) == slots_ms(recs@).add(
                opt_rec_ms(Some(rec)),
            ).count(x));
            assert(built_ms(bpre).add(slots_ms(rpre)).count(x) == s.to_multiset().count(x));
        }
        assert(built_ms(built@).add(slots_ms(recs@)) =~= s.to_multiset());
    }
}

/// Builds every subtree, level by level from the deepest up: a pass at
/// depth `d` completes exactly the nodes whose records sit at depth `d`,
/// consuming the already-built subtrees of their children.
#[verifier::rlimit(100)]
fn build_levels(
    recs: &mut Vec<Option<Record>>,
    built: &mut Vec<Option<Node>>,
    eff: &Vec<Option<usize>>,
    dep: &Vec<usize>,
    Ghost(s): Ghost<Seq<Record>>,
)
    requires
        old(recs)@.len() == s.len(),
        old(built)@.len() == s.len(),
        eff@.len() == s.len(),
        dep@.len() == s.len(),
        forall|t: int| 0 <= t < s.len() ==> opt_idx(eff@[t]) == eff_parent(s, t),
        forall|t: int| 0 <= t < s.len() ==> dep@[t] as nat == depth_of(s, t),
        forall|t: int| 0 <= t < s.len() ==> old(recs)@[t] == Some(s[t]),
        forall|t: int| 0 <= t < s.len() ==> old(built)@[t] is None,
        built_ms(old(built)@).add(slots_ms(old(recs)@)) == s.to_multiset(),
    ensures
        final(built)@.len() == s.len(),
        forall|t: int| 0 <= t < s.len() ==> (final(built)@[t] is Some <==> depth_of(s, t) == 0),
        forall|t: int|
            0 <= t < s.len() && final(built)@[t] is Some ==> represents(
                s,
                final(built)@[t]->Some_0,
                t,
            ) && node_wf(final(built)@[t]->Some_0),
        built_ms(final(built)@) == s.to_multiset(),
{
    let n = recs.len();
    proof {
        assert forall|t: int| 0 <= t < n implies depth_of(s, t) < n by {
            lemma_depth_props(s, t);
        }
    }
    let mut lev: usize = n;
    while lev > 0
        invariant
            n == s.len(),
            eff@.len() == n,
            dep@.len() == n,
            forall|t: int| 0 <= t < n ==> opt_idx(eff@[t]) == eff_parent(s, t),
            forall|t: int| 0 <= t < n ==> dep@[t] as nat == depth_of(s, t),
            lev <= n,
            built@.len() == n,
            recs@.len() == n,
            forall|t: int| 0 <= t < n ==> (built@[t] is Some <==> depth_of(s, t) == lev as nat),
            forall|t: int| 0 <= t < n ==> (recs@[t] is Some <==> depth_of(s, t) < lev as nat),
            forall|t: int| 0 <= t < n && recs@[t] is Some ==> recs@[t] == Some(s[t]),
            forall|t: int|
                0 <= t < n && built@[t] is Some ==> represents(s, built@[t]->Some_0, t)
                    && node_wf(built@[t]->Some_0),
            built_ms(built@).add(slots_ms(recs@)) == s.to_multiset(),
        decreases lev,
    {
        let d = lev - 1;
        let mut i: usize = 0;
        while i < n
            invariant
                n == s.len(),
                eff@.len() == n,
                dep@.len() == n,
                forall|t: int| 0 <= t < n ==> opt_idx(eff@[t]) == eff_parent(s, t),
                forall|t: int| 0 <= t < n ==> dep@[t] as nat == depth_of(s, t),
                d as int == lev as int - 1,
                1 <= lev <= n,
                i <= n,
                built@.len() == n,
                recs@.len() == n,
                forall|t: int| 0 <= t < n ==> (built@[t] is Some <==> ((depth_of(s, t)
                    == lev as nat && !consumed_by(s, t, i as int)) || (depth_of(s, t) == d as nat
                    && t < i))),
                forall|t: int| 0 <= t < n ==> (recs@[t] is Some <==> (depth_of(s, t) < d as nat
                    || (depth_of(s, t) == d as nat && t >= i))),
                forall|t: int| 0 <= t < n && recs@[t] is Some ==> recs@[t] == Some(s[t]),
                forall|t: int|
                    0 <= t < n && built@[t] is Some ==> represents(s, built@[t]->Some_0, t)
                        && node_wf(built@[t]->Some_0),
                built_ms(built@).add(slots_ms(recs@)) == s.to_multiset(),
            decreases n - i,
        {
            if dep[i] == d {
                let ghost bpre = built@;
                let ghost rpre = recs@;
                proof {
                    assert(depth_of(s, i as int) == d as nat);
                    assert forall|t: int|
                        0 <= t < s.len() && eff_parent(s, t) == Some(i as int) implies built@[t]
                        is Some by {
                        lemma_depth_child(s, t, i as int);
                        assert(!consumed_by(s, t, i as int));
                    }
                    assert(built@[i as int] is None);
                    assert(recs@[i as int] is Some);
                }
                build_one(recs, built, eff, i, d, Ghost(s));
                proof {
                    assert forall|t: int| 0 <= t < n implies (built@[t] is Some <==> ((depth_of(
                        s,
                        t,
                    ) == lev as nat && !consumed_by(s, t, i as int + 1)) || (depth_of(s, t)
                        == d as nat && t < i + 1))) by {
                        if t != i {
                            if eff_parent(s, t) == Some(i as int) {
                                lemma_depth_child(s, t, i as int);
                                assert(consumed_by(s, t, i as int + 1));
                                assert(built@[t] is None);
                            } else {
                                assert(built@[t] == bpre[t]);
                                assert(consumed_by(s, t, i as int + 1) == consumed_by(
                                    s,
                                    t,
                                    i as int,
                                ));
                            }
                        }
                    }
                    assert forall|t: int| 0 <= t < n implies (recs@[t] is Some <==> (depth_of(
                        s,
                        t,
                    ) < d as nat || (depth_of(s, t) == d as nat && t >= i + 1))) by {
                        assert(recs@ == rpre.update(i as int, None::<Record>));
                        if t != i {
                            assert(recs@[t] == rpre[t]);
                        }
                    }
                    assert forall|t: int| 0 <= t < n && recs@[t] is Some implies recs@[t] == Some(
                        s[t],
                    ) by {
                        assert(recs@[i as int] is None);
                        if t != i {
                            assert(recs@[t] == rpre[t]);
                        }
                    }
                    assert forall|t: int| 0 <= t < n && built@[t] is Some implies represents(
                        s,
                        built@[t]->Some_0,
                        t,
                    ) && node_wf(built@[t]->Some_0) by {
                        if t != i {
                            assert(built@[t] == (if eff_parent(s, t) == Some(i as int) {
                                None::<Node>
                            } else {
                                bpre[t]
                            }));
                            assert(built@[t] == bpre[t]);
                        }
                    }
                }
            } else {
                proof {
                    assert(depth_of(s, i as int) != d as nat);
                    assert forall|t: int| 0 <= t < n implies (built@[t] is Some <==> ((depth_of(
                        s,
                        t,
                    ) == lev as nat && !consumed_by(s, t, i as int + 1)) || (depth_of(s, t)
                        == d as nat && t < i + 1))) by {
                        if eff_parent(s, t) == Some(i as int) {
                            lemma_depth_child(s, t, i as int);
                        }
                    }
                }
            }
            i += 1;
        }
        lev = d;
        proof {
            assert forall|t: int| 0 <= t < n implies (built@[t] is Some <==> depth_of(s, t)
                == lev as nat) by {
                if depth_of(s, t) == lev as nat + 1 {
                    if eff_parent(s, t) is None {
                        lemma_depth_root(s, t);
                        assert(false);
                    }
                    lemma_depth_child(s, t, eff_parent(s, t)->Some_0);
                    assert(consumed_by(s, t, n as int));
                }
            }
        }
    }
    proof {
        assert forall|t: int| 0 <= t < recs@.len() implies recs@[t] is None by {
            assert(!(depth_of(s, t) < 0));
        }
        lemma_slots_ms_all_none(recs@);
        assert(built_ms(built@).add(slots_ms(recs@)) =~= built_ms(built@));
    }
}

/// Collects the finished root subtrees in input order.
fn collect_roots(
    built: &mut Vec<Option<Node>>,
    eff: &Vec<Option<usize>>,
    Ghost(s): Ghost<Seq<Record>>,
) -> (forest: Vec<Node>)
    requires
        old(built)@.len() == s.len(),
        eff@.len() == s.len(),
        forall|t: int| 0 <= t < s.len() ==> opt_idx(eff@[t]) == eff_parent(s, t),
        forall|t: int| 0 <= t < s.len() ==> (old(built)@[t] is Some <==> depth_of(s, t) == 0),
        forall|t: int|
            0 <= t < s.len() && old(built)@[t] is Some ==> represents(s, old(built)@[t]->Some_0, t)
                && node_wf(old(built)@[t]->Some_0),
        built_ms(old(built)@) == s.to_multiset(),
    ensures
        forest@.len() == root_indices(s).len(),
        forall|k: int|
            0 <= k < forest@.len() ==> represents(s, #[trigger] forest@[k], root_indices(s)[k])
                && node_wf(forest@[k]) && forest@[k].depth == 0,
        forest_ms(forest@) == s.to_multiset(),
{
    let n = built.len();
    proof {
        assert forall|t: int| 0 <= t < n implies (built@[t] is Some <==> (eff_parent(s, t) is None
            && t >= 0)) by {
            match eff_parent(s, t) {
                None => {
                    lemma_depth_root(s, t);
                },
                Some(p) => {
                    lemma_depth_child(s, t, p);
                },
            }
        }
    }
    let mut forest: Vec<Node> = Vec::new();
    let mut i: usize = 0;
    while i < n
        invariant
            n == s.len(),
            eff@.len() == n,
            forall|t: int| 0 <= t < n ==> opt_idx(eff@[t]) == eff_parent(s, t),
            i <= n,
            built@.len() == n,
            forest@.len() == linked_upto(s, None, i as int).len(),
            forall|k: int|
                0 <= k < forest@.len() ==> represents(
                    s,
                    #[trigger] forest@[k],
                    linked_upto(s, None, i as int)[k],
                ) && node_wf(forest@[k]) && forest@[k].depth == 0,
            forall|t: int| 0 <= t < n ==> (built@[t] is Some <==> (eff_parent(s, t) is None && t
                >= i)),
            forall|t: int|
                0 <= t < n && built@[t] is Some ==> represents(s, built@[t]->Some_0, t)
                    && node_wf(built@[t]->Some_0),
            built_ms(built@).add(forest_ms_upto(forest@, forest@.len() as int)) == s.to_multiset(),
        decreases n - i,
    {
        let is_root = match eff[i] {
            None => true,
            Some(_) => false,
        };
        if is_root {
            proof {
                assert(eff_parent(s, i as int) is None);
                lemma_depth_root(s, i as int);
                assert(built@[i as int] is Some);
            }
            let ghost bpre = built@;
            let ghost fpre = forest@;
            let taken = built[i].take();
            let nd = taken.unwrap();
            forest.push(nd);
            proof {
                assert(built@ =~= bpre.update(i as int, None));
                lemma_built_ms_update(bpre, i as int, None);
                assert(built_ms(bpre).add(opt_node_ms(None)) =~= built_ms(bpre));
                assert(built_ms(built@).add(node_ms(nd)) == built_ms(bpre));
                assert(linked_upto(s, None, i as int + 1) =~= linked_upto(s, None, i as int).push(
                    i as int,
                ));
                assert(forest@.drop_last() =~= fpre);
                lemma_forest_ms_prefix(forest@, fpre, fpre.len() as int);
                assert(forest_ms_upto(forest@, forest@.len() as int) == forest_ms_upto(
                    fpre,
                    fpre.len() as int,
                ).add(node_ms(nd)));
                assert(built_ms(built@).add(forest_ms_upto(forest@, forest@.len() as int))
                    =~= built_ms(bpre).add(forest_ms_upto(fpre, fpre.len() as int)));
                assert(nd.depth == 0);
            }
        } else {
            proof {
                assert(eff_parent(s, i as int) is Some);
                assert(linked_upto(s, None, i as int + 1) =~= linked_upto(s, None, i as int));
            }
        }
        i += 1;
    }
    proof {
        assert(i == n);
        assert forall|t: int| 0 <= t < built@.len() implies built@[t] is None by {
            assert(built@[t] is Some <==> (eff_parent(s, t) is None && t >= i as int));
            assert(!(t >= i as int));
        }
        lemma_built_ms_all_none(built@);
        assert(forest_ms_upto(forest@, forest@.len() as int) =~= s.to_multiset());
    }
    forest
}

/// Assembles a flat collection of records into a forest of depth-annotated
/// nodes.
///
/// The forest is pinned down exactly: its roots are the records without a
/// usable parent link, in input order; under each node stand the subtrees of
/// the records whose effective parent it is, in input order
/// (`represents`); and the records of the forest are, as a multiset, exactly
/// the input. A parent reference that names no record, or that would close a
/// cycle, is severed and its record becomes a root. The one fatal condition
/// is a duplicated identifier.
pub fn assemble(records: Vec<Record>) -> (r: Result<Vec<Node>, AssemblyError>)
    ensures
        r is Ok <==> ids_unique(records@),
        match r {
            Ok(forest) => {
                &&& forest@.len() == root_indices(records@).len()
                &&& forall|k: int|
                    0 <= k < forest@.len() ==> represents(
                        records@,
                        #[trigger] forest@[k],
                        root_indices(records@)[k],
                    )
                &&& forall|k: int|
                    0 <= k < forest@.len() ==> node_wf(#[trigger] forest@[k]) && forest@[k].depth
                        == 0
                &&& forest_ms(forest@) == records@.to_multiset()
            },
            Err(e) => e == AssemblyError::DuplicateID,
        },
{
    if has_duplicate(&records) {
        return Err(AssemblyError::DuplicateID);
    }
    let ghost s = records@;
    let orig = resolved_parents(&records);
    let eff = effective_parents(&records, &orig);
    let dep = compute_depths(&records, &eff);
    let n = records.len();
    let mut recs = place_records(records);
    let mut built = blank_nodes(n);
    proof {
        assert(built_ms(built@).add(slots_ms(recs@)) =~= slots_ms(recs@));
    }
    build_levels(&mut recs, &mut built, &eff, &dep, Ghost(s));
    let forest = collect_roots(&mut built, &eff, Ghost(s));
    Ok(forest)
}

/// Cycle safety: when three records form a parent cycle, every one of the
/// three links is severed, so all three records surface as roots, at depth
/// 0 and with no children among them.
pub proof fn lemma_three_cycle_roots(s: Seq<Record>)
    requires
        s.len() == 3,
        ids_unique(s),
        parent_ref(s[0]) == Some(s[1].id@),
        parent_ref(s[1]) == Some(s[2].id@),
        parent_ref(s[2]) == Some(s[0].id@),
    ensures
        forall|i: int| 0 <= i < 3 ==> eff_parent(s, i) is None,
        root_indices(s) =~= seq![0int, 1int, 2int],
        forall|i: int| 0 <= i < 3 ==> depth_of(s, i) == 0,
        forall|i: int| 0 <= i < 3 ==> child_indices(s, i) =~= Seq::<int>::empty(),
{
    assert(links_to(s, 0, 1));
    assert(links_to(s, 1, 2));
    assert(links_to(s, 2, 0));
    assert(resolved_parent(s, 0) == Some(1int)) by {
        lemma_resolved_links(s, 0);
        lemma_links_unique(s, 0, resolved_parent(s, 0)->Some_0, 1);
    }
    assert(resolved_parent(s, 1) == Some(2int)) by {
        lemma_resolved_links(s, 1);
        lemma_links_unique(s, 1, resolved_parent(s, 1)->Some_0, 2);
    }
    assert(resolved_parent(s, 2) == Some(0int)) by {
        lemma_resolved_links(s, 2);
        lemma_links_unique(s, 2, resolved_parent(s, 2)->Some_0, 0);
    }
    assert(walk_hits(s, 0, 0, 1));
    assert(walk_hits(s, 0, 2, 2));
    assert(walk_hits(s, 0, 1, 3));
    assert(severed(s, 0));
    assert(walk_hits(s, 1, 1, 1));
    assert(walk_hits(s, 1, 0, 2));
    assert(walk_hits(s, 1, 2, 3));
    assert(severed(s, 1));
    assert(walk_hits(s, 2, 2, 1));
    assert(walk_hits(s, 2, 1, 2));
    assert(walk_hits(s, 2, 0, 3));
    assert(severed(s, 2));
    assert forall|i: int| 0 <= i < 3 implies eff_parent(s, i) is None by {}
    assert forall|i: int| 0 <= i < 3 implies depth_of(s, i) == 0 by {
        lemma_depth_root(s, i);
    }
    assert(linked_upto(s, None, 0) =~= Seq::<int>::empty());
    assert(linked_upto(s, None, 1) =~= seq![0int]);
    assert(linked_upto(s, None, 2) =~= seq![0int, 1int]);
    assert(root_indices(s) =~= seq![0int, 1int, 2int]);
    assert forall|i: int| 0 <= i < 3 implies child_indices(s, i) =~= Seq::<int>::empty() by {
        assert(linked_upto(s, Some(i), 0) =~= Seq::<int>::empty());
        assert(linked_upto(s, Some(i), 1) =~= Seq::<int>::empty());
        assert(linked_upto(s, Some(i), 2) =~= Seq::<int>::empty());
        assert(linked_upto(s, Some(i), 3) =~= Seq::<int>::empty());
    }
}

} // verus!
