//! The group engine: partitions a filtered forest into per-project buckets
//! of flattened rows, ordered by project display name, with member counts.
use vstd::prelude::*;
use vstd::multiset::Multiset;

use crate::model::Record;
use crate::sort::lex_le;
use crate::sort::record_le;
use crate::sort::record_precedes;
use crate::sort::str_bytes;
use crate::sort::str_le;
use crate::sort::Row;
use crate::sort::SortBy;
use crate::tree::Node;

verus! {

/// Grouping key chosen for a listing.
#[derive(Debug, Clone, Copy, PartialEq, Eq, Structural)]
pub enum GroupBy {
    /// Group tasks by the project they belong to.
    Project,
}

/// A project the grouped listing can name: its identifier and its display
/// name.
#[derive(Debug, Clone)]
pub struct ProjectName {
    /// Identifier of the project.
    pub id: String,
    /// Display name of the project.
    pub name: String,
}

/// How many tasks a subtree holds, the node itself included.
pub open spec fn subtree_total(n: Node) -> nat
    decreases n,
{
    1 + level_total_upto(n.children@, n.children@.len() as int)
}

/// How many tasks the first `k` subtrees of a sibling list hold.
pub open spec fn level_total_upto(s: Seq<Node>, k: int) -> nat
    decreases s, k,
{
    if k <= 0 || k > s.len() {
        0
    } else {
        level_total_upto(s, k - 1) + subtree_total(s[k - 1])
    }
}

proof fn lemma_level_total_mono(s: Seq<Node>, k1: int, k2: int)
    requires
        0 <= k1 <= k2 <= s.len(),
    ensures
        level_total_upto(s, k1) <= level_total_upto(s, k2),
    decreases k2 - k1,
{
    if k1 < k2 {
        lemma_level_total_mono(s, k1, k2 - 1);
    }
}

/// Counts the tasks below a task: all its descendants, itself excluded.
pub fn count_all_subtasks(n: &Node) -> (c: usize)
    requires
        subtree_total(*n) <= usize::MAX,
    ensures
        c as nat == subtree_total(*n) - 1,
    decreases *n,
{
    let mut c: usize = 0;
    let mut k: usize = 0;
    let m = n.children.len();
    while k < m
        invariant
            k <= m,
            m == n.children@.len(),
            subtree_total(*n) <= usize::MAX,
            c as nat == level_total_upto(n.children@, k as int),
        decreases m - k,
    {
        proof {
            lemma_level_total_mono(n.children@, k as int + 1, n.children@.len() as int);
            broadcast use vstd::seq::axiom_seq_index_decreases;
            broadcast use vstd::std_specs::vec::axiom_vec_decreases_to_view;

            assert(decreases_to!(n.children@ => n.children@[k as int]));
            assert(decreases_to!(*n => n.children@[k as int]));
        }
        let sub = count_all_subtasks(&n.children[k]);
        c = c + 1 + sub;
        k += 1;
    }
    c
}

/// Counts the tasks of a whole forest, subtasks included.
pub fn count_all_tasks(nodes: &Vec<Node>) -> (c: usize)
    requires
        level_total_upto(nodes@, nodes@.len() as int) <= usize::MAX,
    ensures
        c as nat == level_total_upto(nodes@, nodes@.len() as int),
{
    let mut c: usize = 0;
    let mut k: usize = 0;
    let m = nodes.len();
    while k < m
        invariant
            k <= m,
            m == nodes@.len(),
            level_total_upto(nodes@, nodes@.len() as int) <= usize::MAX,
            c as nat == level_total_upto(nodes@, k as int),
        decreases m - k,
    {
        proof {
            lemma_level_total_mono(nodes@, k as int + 1, nodes@.len() as int);
        }
        let sub = count_all_subtasks(&nodes[k]);
        c = c + 1 + sub;
        k += 1;
    }
    c
}

/// One flattened task of a grouped listing: the record, its depth in the
/// original forest, the size of the subtree that stood under it, and
/// whether it was placed in its bucket directly, that is, not under a
/// parent of the same project.
#[derive(Debug)]
pub struct GroupEntry {
    /// The record of the task.
    pub record: Record,
    /// The depth the task had in the forest.
    pub depth: usize,
    /// How many tasks the subtree under it held, itself included.
    pub size: usize,
    /// Whether its parent, if any, belonged to a different project.
    pub direct: bool,
}

/// The flattened entries of the first `k` subtrees of a sibling list, in
/// preorder, under a parent of project `pp`.
pub open spec fn gflat_level(s: Seq<Node>, k: int, pp: Option<Seq<char>>) -> Seq<GroupEntry>
    decreases s, k,
{
    if k <= 0 || k > s.len() {
        Seq::empty()
    } else {
        gflat_level(s, k - 1, pp) + gflat_node(s[k - 1], pp)
    }
}

/// The flattened entries of one subtree, in preorder, under a parent of
/// project `pp`.
pub open spec fn gflat_node(n: Node, pp: Option<Seq<char>>) -> Seq<GroupEntry>
    decreases n,
{
    seq![
        GroupEntry {
            record: n.record,
            depth: n.depth,
            size: subtree_total(n) as usize,
            direct: pp != Some(n.record.project_id@),
        },
    ] + gflat_level(n.children@, n.children@.len() as int, Some(n.record.project_id@))
}

/// The flattened entries of a whole forest.
pub open spec fn gflat(s: Seq<Node>) -> Seq<GroupEntry> {
    gflat_level(s, s.len() as int, None)
}

/// How many of the first `k` entries sit directly in the bucket of
/// project `pid`.
pub open spec fn bucket_direct(es: Seq<GroupEntry>, k: int, pid: Seq<char>) -> nat
    decreases k,
{
    if k <= 0 || k > es.len() {
        0
    } else {
        bucket_direct(es, k - 1, pid) + (if es[k - 1].record.project_id@ == pid && es[k
            - 1].direct {
            1nat
        } else {
            0nat
        })
    }
}

/// The total the bucket of project `pid` reports over the first `k`
/// entries: the subtree sizes of its directly placed entries, summed.
pub open spec fn bucket_total(es: Seq<GroupEntry>, k: int, pid: Seq<char>) -> nat
    decreases k,
{
    if k <= 0 || k > es.len() {
        0
    } else {
        bucket_total(es, k - 1, pid) + (if es[k - 1].record.project_id@ == pid && es[k
            - 1].direct {
            es[k - 1].size as nat
        } else {
            0nat
        })
    }
}

/// The records among the first `k` entries that belong to project `pid`.
pub open spec fn bucket_ms(es: Seq<GroupEntry>, k: int, pid: Seq<char>) -> Multiset<Record>
    decreases k,
{
    if k <= 0 || k > es.len() {
        Multiset::empty()
    } else if es[k - 1].record.project_id@ == pid {
        bucket_ms(es, k - 1, pid).insert(es[k - 1].record)
    } else {
        bucket_ms(es, k - 1, pid)
    }
}

/// The display name a bucket shows for project `pid`: the name of the
/// first listed project with that identifier, or the identifier itself
/// when no project is known for it.
pub open spec fn display_name(ps: Seq<ProjectName>, k: int, pid: Seq<char>) -> Seq<char>
    decreases k - 0,
{
    if k <= 0 || k > ps.len() {
        pid
    } else if ps[0].id@ == pid {
        ps[0].name@
    } else {
        display_name(ps.drop_first(), k - 1, pid)
    }
}

/// The records of a row list.
pub open spec fn rows_ms(rows: Seq<Row>) -> Multiset<Record>
    decreases rows.len(),
{
    if rows.len() == 0 {
        Multiset::empty()
    } else {
        rows_ms(rows.drop_last()).insert(rows.last().record)
    }
}

/// One bucket of a grouped listing: a project, its display name, how many
/// tasks were placed in it directly against how many it holds in total,
/// and the flattened member rows.
#[derive(Debug)]
pub struct ProjectBucket {
    /// Identifier of the project.
    pub project_id: String,
    /// Display name shown as the bucket header.
    pub name: String,
    /// How many members were placed directly: their parent, if any,
    /// belonged to another project.
    pub direct: usize,
    /// Total of the subtree sizes of the directly placed members.
    pub total: usize,
    /// The member rows, one per task of the project.
    pub rows: Vec<Row>,
}


/// The view of an optional borrowed string.
pub open spec fn opt_str_view(pp: Option<&String>) -> Option<Seq<char>> {
    match pp {
        Some(p) => Some(p@),
        None => None,
    }
}

fn gflat_forest(nodes: Vec<Node>, pp: Option<&String>, out: &mut Vec<GroupEntry>)
    requires
        level_total_upto(nodes@, nodes@.len() as int) <= usize::MAX,
    ensures
        old(out)@.is_prefix_of(final(out)@),
        final(out)@.skip(old(out)@.len() as int) == gflat_level(
            nodes@,
            nodes@.len() as int,
            opt_str_view(pp),
        ),
    decreases nodes,
{
    let ghost base = out@;
    let ghost origv = nodes@;
    let ghost ppv = opt_str_view(pp);
    let mut rest = nodes;
    let mut j: usize = 0;
    let n = rest.len();
    proof {
        assert(out@.skip(base.len() as int) =~= gflat_level(origv, 0, ppv));
    }
    while j < n
        invariant
            j <= n,
            n == origv.len(),
            rest@ == origv.skip(j as int),
            origv == nodes@,
            level_total_upto(origv, origv.len() as int) <= usize::MAX,
            ppv == opt_str_view(pp),
            base.is_prefix_of(out@),
            out@.skip(base.len() as int) == gflat_level(origv, j as int, ppv),
        decreases n - j,
    {
        let ghost outpre = out@;
        let c = rest.remove(0);
        proof {
            assert(c == origv[j as int]);
            assert(origv.skip(j as int).remove(0) =~= origv.skip(j as int + 1));
            lemma_level_total_mono(origv, j as int + 1, origv.len() as int);
            assert(subtree_total(c) <= usize::MAX);
            broadcast use vstd::seq::axiom_seq_index_decreases;
            broadcast use vstd::std_specs::vec::axiom_vec_decreases_to_view;

            assert(decreases_to!(origv => origv[j as int]));
            assert(decreases_to!(nodes => nodes@));
            assert(decreases_to!(nodes => c));
        }
        gflat_one(c, pp, out);
        proof {
            assert(outpre.is_prefix_of(out@));
            assert(base.is_prefix_of(out@));
            let seg = out@.skip(outpre.len() as int);
            assert(seg == gflat_node(origv[j as int], ppv));
            assert(out@.skip(base.len() as int) =~= gflat_level(origv, j as int, ppv) + seg) by {
                assert(outpre.skip(base.len() as int) == gflat_level(origv, j as int, ppv));
                assert forall|z: int|
                    0 <= z < out@.len() - base.len() implies out@.skip(base.len() as int)[z] == (
                gflat_level(origv, j as int, ppv) + seg)[z] by {
                    if z < outpre.len() - base.len() {
                        assert(out@[base.len() + z] == outpre[base.len() + z]);
                    }
                }
            }
            assert(out@.skip(base.len() as int) == gflat_level(origv, j as int + 1, ppv));
        }
        j += 1;
    }
}

fn gflat_one(n: Node, pp: Option<&String>, out: &mut Vec<GroupEntry>)
    requires
        subtree_total(n) <= usize::MAX,
    ensures
        old(out)@.is_prefix_of(final(out)@),
        final(out)@.skip(old(out)@.len() as int) == gflat_node(n, opt_str_view(pp)),
    decreases n,
{
    let ghost base = out@;
    let ghost n0 = n;
    let ghost ppv = opt_str_view(pp);
    let sub = count_all_subtasks(&n);
    let size = sub + 1;
    let direct = match pp {
        None => true,
        Some(p) => !(*p == n.record.project_id),
    };
    let pid = n.record.project_id.clone();
    let Node { record, depth, children } = n;
    out.push(GroupEntry { record, depth, size, direct });
    proof {
        assert(size as nat == subtree_total(n0));
        assert(size == subtree_total(n0) as usize);
        assert(direct == (ppv != Some(n0.record.project_id@)));
        assert(out@ =~= base.push(
            GroupEntry {
                record: n0.record,
                depth: n0.depth,
                size: subtree_total(n0) as usize,
                direct: ppv != Some(n0.record.project_id@),
            },
        ));
        assert(pid@ == n0.record.project_id@);
    }
    gflat_forest(children, Some(&pid), out);
    proof {
        let mid = base.push(
            GroupEntry {
                record: n0.record,
                depth: n0.depth,
                size: subtree_total(n0) as usize,
                direct: ppv != Some(n0.record.project_id@),
            },
        );
        assert(mid.is_prefix_of(out@));
        let rs = out@.skip(base.len() as int);
        assert(out@[base.len() as int] == mid[base.len() as int]);
        assert(rs.skip(1) =~= out@.skip(mid.len() as int));
        assert(rs =~= gflat_node(n0, ppv));
    }
}


/// What a finished bucket states about the flattened entries `es` and the
/// project list `ps`: its counts follow the counting rule, its rows are
/// exactly the project's records, ordered under the key, and its header
/// carries the display name.
pub open spec fn bucket_filled(
    b: ProjectBucket,
    es: Seq<GroupEntry>,
    ps: Seq<ProjectName>,
    key: Option<SortBy>,
) -> bool {
    &&& b.direct as nat == bucket_direct(es, es.len() as int, b.project_id@)
    &&& b.total as nat == bucket_total(es, es.len() as int, b.project_id@)
    &&& rows_ms(b.rows@) == bucket_ms(es, es.len() as int, b.project_id@)
    &&& b.name@ == display_name(ps, ps.len() as int, b.project_id@)
    &&& forall|r: int|
        0 <= r < b.rows@.len() ==> (#[trigger] b.rows@[r]).record.project_id@ == b.project_id@
    &&& forall|r1: int, r2: int|
        #![trigger b.rows@[r1], b.rows@[r2]]
        0 <= r1 < r2 < b.rows@.len() ==> record_le(key, b.rows@[r1].record, b.rows@[r2].record)
}

/// A bucket in mid-assembly, after the first `k` entries.
spec fn bucket_part(b: ProjectBucket, es: Seq<GroupEntry>, k: int, ps: Seq<ProjectName>) -> bool {
    &&& b.direct as nat == bucket_direct(es, k, b.project_id@)
    &&& b.total as nat == bucket_total(es, k, b.project_id@)
    &&& rows_ms(b.rows@) == bucket_ms(es, k, b.project_id@)
    &&& b.name@ == display_name(ps, ps.len() as int, b.project_id@)
    &&& forall|r: int|
        0 <= r < b.rows@.len() ==> (#[trigger] b.rows@[r]).record.project_id@ == b.project_id@
}

proof fn lemma_bucket_absent(es: Seq<GroupEntry>, k: int, pid: Seq<char>)
    requires
        0 <= k <= es.len(),
        forall|e: int| 0 <= e < k ==> (#[trigger] es[e]).record.project_id@ != pid,
    ensures
        bucket_direct(es, k, pid) == 0,
        bucket_total(es, k, pid) == 0,
        bucket_ms(es, k, pid) == Multiset::<Record>::empty(),
    decreases k,
{
    if k > 0 {
        lemma_bucket_absent(es, k - 1, pid);
    }
}

proof fn lemma_bucket_direct_bound(es: Seq<GroupEntry>, k: int, pid: Seq<char>)
    requires
        0 <= k <= es.len(),
    ensures
        bucket_direct(es, k, pid) <= k,
    decreases k,
{
    if k > 0 {
        lemma_bucket_direct_bound(es, k - 1, pid);
    }
}

proof fn lemma_bucket_total_mono(es: Seq<GroupEntry>, k1: int, k2: int, pid: Seq<char>)
    requires
        0 <= k1 <= k2 <= es.len(),
    ensures
        bucket_total(es, k1, pid) <= bucket_total(es, k2, pid),
    decreases k2 - k1,
{
    if k1 < k2 {
        lemma_bucket_total_mono(es, k1, k2 - 1, pid);
    }
}

fn lookup_name(projects: &Vec<ProjectName>, pid: &String) -> (name: String)
    ensures
        name@ == display_name(projects@, projects@.len() as int, pid@),
{
    let n = projects.len();
    let mut m: usize = 0;
    proof {
        assert(projects@.skip(0) =~= projects@);
    }
    while m < n
        invariant
            m <= n,
            n == projects@.len(),
            display_name(projects@, n as int, pid@) == display_name(
                projects@.skip(m as int),
                n as int - m,
                pid@,
            ),
        decreases n - m,
    {
        proof {
            assert(projects@.skip(m as int)[0] == projects@[m as int]);
            assert(projects@.skip(m as int).drop_first() =~= projects@.skip(m as int + 1));
        }
        if projects[m].id == *pid {
            return projects[m].name.clone();
        }
        m += 1;
    }
    proof {
        assert(projects@.skip(m as int).len() == 0);
    }
    pid.clone()
}

proof fn lemma_rows_ms_perm(a: Seq<Row>, b: Seq<Row>)
    requires
        a.to_multiset() == b.to_multiset(),
    ensures
        rows_ms(a) == rows_ms(b),
    decreases a.len(),
{
    broadcast use vstd::seq_lib::group_to_multiset_ensures;

    a.to_multiset_ensures();
    b.to_multiset_ensures();
    if a.len() == 0 {
        assert(b.to_multiset().len() == 0);
        assert(b.len() == 0);
        assert(rows_ms(a) =~= rows_ms(b));
    } else {
        let x = a.last();
        assert(a.to_multiset().contains(x));
        assert(b.contains(x));
        let w = choose|w: int| 0 <= w < b.len() && b[w] == x;
        assert(a.drop_last() =~= a.remove(a.len() - 1));
        assert(a.remove(a.len() - 1).to_multiset() =~= a.to_multiset().remove(x));
        assert(b.remove(w).to_multiset() =~= b.to_multiset().remove(x));
        lemma_rows_ms_perm(a.drop_last(), b.remove(w));
        lemma_rows_ms_remove(b, w);
        assert(rows_ms(a) =~= rows_ms(b));
    }
}

proof fn lemma_rows_ms_remove(b: Seq<Row>, w: int)
    requires
        0 <= w < b.len(),
    ensures
        rows_ms(b) == rows_ms(b.remove(w)).insert(b[w].record),
    decreases b.len(),
{
    if w == b.len() - 1 {
        assert(b.remove(w) =~= b.drop_last());
    } else {
        lemma_rows_ms_remove(b.drop_last(), w);
        assert(b.remove(w).drop_last() =~= b.drop_last().remove(w));
        assert(b.remove(w).last() == b.last());
        assert forall|x: Record| rows_ms(b).count(x) == rows_ms(b.remove(w)).insert(
            b[w].record,
        ).count(x) by {
            assert(rows_ms(b).count(x) == rows_ms(b.drop_last()).insert(b.last().record).count(
                x,
            ));
            assert(rows_ms(b.drop_last()).count(x) == rows_ms(b.drop_last().remove(w)).insert(
                b[w].record,
            ).count(x));
            assert(rows_ms(b.remove(w)).count(x) == rows_ms(b.remove(w).drop_last()).insert(
                b.remove(w).last().record,
            ).count(x));
        }
        assert(rows_ms(b) =~= rows_ms(b.remove(w)).insert(b[w].record));
    }
}

/// Sorts the rows of one bucket under the chosen key; the rows are a
/// permutation of the input.
fn sort_rows(rows: &mut Vec<Row>, key: &Option<SortBy>)
    ensures
        final(rows)@.len() == old(rows)@.len(),
        final(rows)@.to_multiset() == old(rows)@.to_multiset(),
        rows_ms(final(rows)@) == rows_ms(old(rows)@),
        forall|x: int, y: int|
            #![trigger final(rows)@[x], final(rows)@[y]]
            0 <= x < y < final(rows)@.len() ==> record_le(
                *key,
                final(rows)@[x].record,
                final(rows)@[y].record,
            ),
{
    let ghost orig = rows@;
    let n = rows.len();
    let mut i: usize = 1;
    while i < n
        invariant
            1 <= i,
            i <= n || n <= 1,
            rows@.len() == n,
            rows@.to_multiset() == orig.to_multiset(),
            forall|x: int, y: int|
                #![trigger rows@[x], rows@[y]]
                0 <= x < y < i && y < n ==> record_le(*key, rows@[x].record, rows@[y].record),
        decreases n - i,
    {
        let mut j: usize = 0;
        while j < i
            invariant_except_break
                j <= i,
                i < n,
                rows@.len() == n,
                forall|k: int| 0 <= k < j ==> record_le(
                    *key,
                    (#[trigger] rows@[k]).record,
                    rows@[i as int].record,
                ),
            ensures
                j <= i,
                rows@.len() == n,
                forall|k: int| 0 <= k < j ==> record_le(
                    *key,
                    (#[trigger] rows@[k]).record,
                    rows@[i as int].record,
                ),
                j < i ==> !record_le(*key, rows@[j as int].record, rows@[i as int].record),
            decreases i - j,
        {
            if !record_precedes(key, &rows[j].record, &rows[i].record) {
                break;
            }
            j += 1;
        }
        let ghost pre = rows@;
        let x = rows.remove(i);
        let ghost mid = rows@;
        rows.insert(j, x);
        proof {
            broadcast use vstd::seq_lib::group_to_multiset_ensures;

            assert(mid.to_multiset() == pre.to_multiset().remove(x));
            lemma_rows_to_ms_insert(mid, j as int, x);
            assert(pre.to_multiset().contains(x));
            assert(rows@.to_multiset() =~= pre.to_multiset());
            assert forall|p: int, q: int|
                #![trigger rows@[p], rows@[q]]
                0 <= p < q < i + 1 && q < n implies record_le(
                *key,
                rows@[p].record,
                rows@[q].record,
            ) by {
                let jj = j as int;
                let ii = i as int;
                if q < jj {
                    assert(rows@[p] == pre[p] && rows@[q] == pre[q]);
                } else if q == jj {
                    assert(rows@[p] == pre[p] && rows@[q] == x);
                } else if p < jj {
                    assert(rows@[p] == pre[p] && rows@[q] == pre[q - 1]);
                } else if p == jj {
                    assert(rows@[p] == x && rows@[q] == pre[q - 1]);
                    if jj < ii {
                        crate::sort::lemma_record_le_total(*key, x.record, pre[jj].record);
                        assert(record_le(*key, x.record, pre[jj].record));
                        if jj < q - 1 {
                            assert(record_le(*key, pre[jj].record, pre[q - 1].record));
                            crate::sort::lemma_record_le_trans(
                                *key,
                                x.record,
                                pre[jj].record,
                                pre[q - 1].record,
                            );
                        }
                    }
                } else {
                    assert(rows@[p] == pre[p - 1] && rows@[q] == pre[q - 1]);
                }
            }
        }
        i += 1;
    }
    proof {
        lemma_rows_ms_perm(rows@, orig);
    }
}

proof fn lemma_rows_to_ms_insert(s: Seq<Row>, j: int, x: Row)
    requires
        0 <= j <= s.len(),
    ensures
        s.insert(j, x).to_multiset() == s.to_multiset().insert(x),
    decreases s.len() - j,
{
    broadcast use vstd::seq_lib::group_to_multiset_ensures;

    if j == s.len() {
        assert(s.insert(j, x) =~= s.push(x));
    } else {
        lemma_rows_to_ms_insert(s.drop_last(), j, x);
        assert(s.insert(j, x) =~= s.drop_last().insert(j, x).push(s.last()));
        assert(s =~= s.drop_last().push(s.last()));
        assert forall|e: Row|
            s.insert(j, x).to_multiset().count(e) == s.to_multiset().insert(x).count(e) by {
            assert(s.insert(j, x).to_multiset().count(e) == s.drop_last().insert(
                j,
                x,
            ).to_multiset().insert(s.last()).count(e));
            assert(s.drop_last().insert(j, x).to_multiset().count(e) == s.drop_last()
                .to_multiset().insert(x).count(e));
            assert(s.to_multiset().count(e) == s.drop_last().to_multiset().insert(
                s.last(),
            ).count(e));
        }
        assert(s.insert(j, x).to_multiset() =~= s.to_multiset().insert(x));
    }
}

/// Groups a filtered forest into per-project buckets: every task lands in
/// the bucket of its own project, in preorder; buckets stand in ascending
/// order of display name; each reports how many members were placed
/// directly against the total of their subtree sizes; and each bucket's
/// rows are ordered under the chosen key.
#[verifier::rlimit(100)]
pub fn group_by_project(
    forest: Vec<Node>,
    projects: &Vec<ProjectName>,
    key: &Option<SortBy>,
) -> (buckets: Vec<ProjectBucket>)
    requires
        level_total_upto(forest@, forest@.len() as int) <= usize::MAX,
        forall|pid: Seq<char>|
            #![trigger bucket_total(gflat(forest@), gflat(forest@).len() as int, pid)]
            bucket_total(gflat(forest@), gflat(forest@).len() as int, pid) <= usize::MAX,
    ensures
        forall|b: int|
            0 <= b < buckets@.len() ==> bucket_filled(
                #[trigger] buckets@[b],
                gflat(forest@),
                projects@,
                *key,
            ),
        forall|b1: int, b2: int|
            #![trigger buckets@[b1], buckets@[b2]]
            0 <= b1 < b2 < buckets@.len() ==> buckets@[b1].project_id@ != buckets@[b2].project_id@
                && lex_le(str_bytes(buckets@[b1].name@), str_bytes(buckets@[b2].name@)),
        forall|e: int|
            0 <= e < gflat(forest@).len() ==> exists|b: int|
                0 <= b < buckets@.len() && (#[trigger] buckets@[b]).project_id@ == (
                #[trigger] gflat(forest@)[e]).record.project_id@,
{
    let ghost fv = forest@;
    let mut entries: Vec<GroupEntry> = Vec::new();
    gflat_forest(forest, None, &mut entries);
    let ghost es = entries@;
    proof {
        assert(entries@.skip(0) =~= entries@);
        assert(es == gflat(fv));
    }
    let mut buckets: Vec<ProjectBucket> = Vec::new();
    let mut k: usize = 0;
    let n = entries.len();
    while k < n
        invariant
            k <= n,
            n == es.len(),
            entries@ == es.skip(k as int),
            es == gflat(fv),
            forall|pid: Seq<char>|
                #![trigger bucket_total(es, es.len() as int, pid)]
                bucket_total(es, es.len() as int, pid) <= usize::MAX,
            forall|b: int| 0 <= b < buckets@.len() ==> bucket_part(
                #[trigger] buckets@[b],
                es,
                k as int,
                projects@,
            ),
            forall|b1: int, b2: int|
                #![trigger buckets@[b1], buckets@[b2]]
                0 <= b1 < b2 < buckets@.len() ==> buckets@[b1].project_id@
                    != buckets@[b2].project_id@ && lex_le(
                    str_bytes(buckets@[b1].name@),
                    str_bytes(buckets@[b2].name@),
                ),
            forall|e: int|
                0 <= e < k ==> exists|b: int|
                    0 <= b < buckets@.len() && (#[trigger] buckets@[b]).project_id@ == (
                    #[trigger] es[e]).record.project_id@,
        decreases n - k,
    {
        let entry = entries.remove(0);
        proof {
            assert(entry == es[k as int]);
            assert(es.skip(k as int).remove(0) =~= es.skip(k as int + 1));
        }
        // Find the entry's bucket.
        let nb = buckets.len();
        let mut idx: usize = 0;
        while idx < nb
            invariant_except_break
                idx <= nb,
                nb == buckets@.len(),
                forall|b: int| 0 <= b < idx ==> (#[trigger] buckets@[b]).project_id@
                    != entry.record.project_id@,
            ensures
                nb == buckets@.len(),
                idx <= nb,
                idx < nb ==> buckets@[idx as int].project_id@ == entry.record.project_id@,
                idx == nb ==> forall|b: int|
                    0 <= b < nb ==> (#[trigger] buckets@[b]).project_id@
                        != entry.record.project_id@,
            decreases nb - idx,
        {
            if buckets[idx].project_id == entry.record.project_id {
                break;
            }
            idx += 1;
        }
        if idx == nb {
            // First task of this project: a fresh bucket, inserted at its
            // place in the display-name order.
            let pid = entry.record.project_id.clone();
            let name = lookup_name(projects, &pid);
            proof {
                assert(pid@ == es[k as int].record.project_id@);
                assert forall|e: int|
                    0 <= e < k implies (#[trigger] es[e]).record.project_id@ != pid@ by {
                    if es[e].record.project_id@ == pid@ {
                        let bx = choose|bx: int|
                            0 <= bx < buckets@.len() && (#[trigger] buckets@[bx]).project_id@
                                == es[e].record.project_id@;
                        assert(false);
                    }
                }
                lemma_bucket_absent(es, k as int, pid@);
            }
            let mut pos: usize = 0;
            while pos < nb
                invariant_except_break
                    pos <= nb,
                    nb == buckets@.len(),
                    forall|b: int| 0 <= b < pos ==> lex_le(
                        str_bytes((#[trigger] buckets@[b]).name@),
                        str_bytes(name@),
                    ),
                ensures
                    nb == buckets@.len(),
                    pos <= nb,
                    forall|b: int| 0 <= b < pos ==> lex_le(
                        str_bytes((#[trigger] buckets@[b]).name@),
                        str_bytes(name@),
                    ),
                    pos < nb ==> !lex_le(str_bytes(buckets@[pos as int].name@), str_bytes(name@)),
                decreases nb - pos,
            {
                if !str_le(buckets[pos].name.as_str(), name.as_str()) {
                    break;
                }
                pos += 1;
            }
            let mut rows: Vec<Row> = Vec::new();
            let ghost entry0 = entry;
            let GroupEntry { record, depth, size, direct } = entry;
            proof {
                assert(record == entry0.record);
                assert(entry0 == es[k as int]);
            }
            rows.push(Row { record, depth });
            proof {
                assert(rows@ =~= seq![Row { record: entry0.record, depth: entry0.depth }]);
            }
            let b = ProjectBucket {
                project_id: pid,
                name,
                direct: if direct {
                    1
                } else {
                    0
                },
                total: if direct {
                    size
                } else {
                    0
                },
                rows,
            };
            let ghost bpre = buckets@;
            buckets.insert(pos, b);
            proof {
                assert(b.rows@.len() == 1);
                assert(b.rows@.drop_last() =~= Seq::<Row>::empty());
                assert(b.rows@.last().record == es[k as int].record);
                assert(rows_ms(Seq::<Row>::empty()) == Multiset::<Record>::empty());
                assert(rows_ms(b.rows@) =~= Multiset::<Record>::empty().insert(
                    es[k as int].record,
                ));
                assert(b.project_id@ == es[k as int].record.project_id@);
                assert(bucket_direct(es, k as int + 1, b.project_id@) == bucket_direct(
                    es,
                    k as int,
                    b.project_id@,
                ) + (if es[k as int].record.project_id@ == b.project_id@ && es[k as int].direct {
                    1nat
                } else {
                    0nat
                }));
                assert(bucket_part(b, es, k as int + 1, projects@));
                assert forall|b2: int|
                    0 <= b2 < buckets@.len() implies bucket_part(
                    #[trigger] buckets@[b2],
                    es,
                    k as int + 1,
                    projects@,
                ) by {
                    assert(buckets@ == bpre.insert(pos as int, b));
                    if b2 != pos {
                        let old_b = if b2 < pos {
                            b2
                        } else {
                            b2 - 1
                        };
                        assert(buckets@[b2] == bpre[old_b]);
                        assert(buckets@[b2].project_id@ != es[k as int].record.project_id@);
                    }
                }
                assert forall|b1: int, b2: int|
                    #![trigger buckets@[b1], buckets@[b2]]
                    0 <= b1 < b2 < buckets@.len() implies buckets@[b1].project_id@
                    != buckets@[b2].project_id@ && lex_le(
                    str_bytes(buckets@[b1].name@),
                    str_bytes(buckets@[b2].name@),
                ) by {
                    let p = pos as int;
                    assert(buckets@ == bpre.insert(p, b));
                    if b1 == p {
                        assert(buckets@[b2] == bpre[b2 - 1]);
                        assert(b2 - 1 >= p);
                        crate::sort::lemma_lex_le_total(
                            str_bytes(bpre[p].name@),
                            str_bytes(name@),
                        );
                        assert(lex_le(str_bytes(name@), str_bytes(bpre[p].name@)));
                        if b2 - 1 > p {
                            crate::sort::lemma_lex_le_trans(
                                str_bytes(name@),
                                str_bytes(bpre[p].name@),
                                str_bytes(bpre[b2 - 1].name@),
                            );
                        }
                    } else if b2 == p {
                        assert(buckets@[b1] == bpre[b1]);
                    } else if b2 < p {
                        assert(buckets@[b1] == bpre[b1]);
                        assert(buckets@[b2] == bpre[b2]);
                    } else if b1 > p {
                        assert(buckets@[b1] == bpre[b1 - 1]);
                        assert(buckets@[b2] == bpre[b2 - 1]);
                    } else {
                        assert(buckets@[b1] == bpre[b1]);
                        assert(buckets@[b2] == bpre[b2 - 1]);
                    }
                }
                assert forall|e: int|
                    0 <= e < k + 1 implies exists|bb: int|
                        0 <= bb < buckets@.len() && (#[trigger] buckets@[bb]).project_id@ == (
                        #[trigger] es[e]).record.project_id@ by {
                    if e == k {
                        assert(buckets@[pos as int].project_id@ == es[e].record.project_id@);
                    } else {
                        let bx = choose|bx: int|
                            0 <= bx < bpre.len() && (#[trigger] bpre[bx]).project_id@
                                == es[e].record.project_id@;
                        let nbx: int = if bx < pos {
                            bx
                        } else {
                            bx + 1
                        };
                        assert(buckets@ == bpre.insert(pos as int, b));
                        assert(buckets@[nbx] == bpre[bx]);
                    }
                }
            }
        } else {
            // The project already has a bucket: count the entry into it.
            proof {
                lemma_bucket_direct_bound(es, k as int, entry.record.project_id@);
                lemma_bucket_total_mono(
                    es,
                    k as int + 1,
                    es.len() as int,
                    entry.record.project_id@,
                );
            }
            let ghost bpre = buckets@;
            let mut b = buckets.remove(idx);
            let ghost bold = b;
            let GroupEntry { record, depth, size, direct } = entry;
            if direct {
                b.direct = b.direct + 1;
                b.total = b.total + size;
            }
            b.rows.push(Row { record, depth });
            buckets.insert(idx, b);
            proof {
                assert(buckets@ =~= bpre.update(idx as int, buckets@[idx as int]));
                let nb2 = buckets@[idx as int];
                assert(nb2.rows@.drop_last() =~= bold.rows@);
                assert(rows_ms(nb2.rows@) == rows_ms(bold.rows@).insert(es[k as int].record));
                assert(bucket_part(nb2, es, k as int + 1, projects@));
                assert forall|b2: int|
                    0 <= b2 < buckets@.len() implies bucket_part(
                    #[trigger] buckets@[b2],
                    es,
                    k as int + 1,
                    projects@,
                ) by {
                    if b2 != idx {
                        assert(buckets@[b2] == bpre[b2]);
                        assert(buckets@[b2].project_id@ != es[k as int].record.project_id@);
                    }
                }
                assert forall|e: int|
                    0 <= e < k + 1 implies exists|bb: int|
                        0 <= bb < buckets@.len() && (#[trigger] buckets@[bb]).project_id@ == (
                        #[trigger] es[e]).record.project_id@ by {
                    if e == k {
                        assert(buckets@[idx as int].project_id@ == es[e].record.project_id@);
                    } else {
                        let bx = choose|bx: int|
                            0 <= bx < bpre.len() && (#[trigger] bpre[bx]).project_id@
                                == es[e].record.project_id@;
                        if bx == idx {
                            assert(buckets@[idx as int].project_id@
                                == es[e].record.project_id@);
                        } else {
                            assert(buckets@[bx] == bpre[bx]);
                        }
                    }
                }
            }
        }
        k += 1;
    }
    // Order each bucket's rows under the key.
    let nb = buckets.len();
    let mut b: usize = 0;
    while b < nb
        invariant
            b <= nb,
            nb == buckets@.len(),
            es == gflat(fv),
            forall|t: int| 0 <= t < nb ==> bucket_part(
                #[trigger] buckets@[t],
                es,
                es.len() as int,
                projects@,
            ),
            forall|b1: int, b2: int|
                #![trigger buckets@[b1], buckets@[b2]]
                0 <= b1 < b2 < nb ==> buckets@[b1].project_id@ != buckets@[b2].project_id@
                    && lex_le(str_bytes(buckets@[b1].name@), str_bytes(buckets@[b2].name@)),
            forall|e: int|
                0 <= e < es.len() ==> exists|bx: int|
                    0 <= bx < nb && (#[trigger] buckets@[bx]).project_id@ == (
                    #[trigger] es[e]).record.project_id@,
            forall|t: int| 0 <= t < b ==> bucket_filled(
                #[trigger] buckets@[t],
                es,
                projects@,
                *key,
            ),
        decreases nb - b,
    {
        let ghost bpre = buckets@;
        let mut bk = buckets.remove(b);
        let ghost bkold = bk;
        sort_rows(&mut bk.rows, key);
        buckets.insert(b, bk);
        proof {
            assert(buckets@ =~= bpre.update(b as int, buckets@[b as int]));
            let nb2 = buckets@[b as int];
            assert(rows_ms(nb2.rows@) == rows_ms(bkold.rows@));
            assert(bucket_filled(nb2, es, projects@, *key)) by {
                assert forall|r: int|
                    0 <= r < nb2.rows@.len() implies (#[trigger] nb2.rows@[r]).record.project_id@
                    == nb2.project_id@ by {
                    broadcast use vstd::seq_lib::group_to_multiset_ensures;

                    nb2.rows@.to_multiset_ensures();
                    bkold.rows@.to_multiset_ensures();
                    assert(nb2.rows@.to_multiset().contains(nb2.rows@[r]));
                    assert(bkold.rows@.contains(nb2.rows@[r]));
                }
            }
            assert forall|b2: int| 0 <= b2 < nb && b2 != b implies buckets@[b2] == bpre[b2] by {}
        }
        b += 1;
    }
    buckets
}


/// The records of a run of flattened entries.
pub open spec fn entries_ms(es: Seq<GroupEntry>) -> Multiset<Record>
    decreases es.len(),
{
    if es.len() == 0 {
        Multiset::empty()
    } else {
        entries_ms(es.drop_last()).insert(es.last().record)
    }
}

proof fn lemma_entries_ms_concat(a: Seq<GroupEntry>, b: Seq<GroupEntry>)
    ensures
        entries_ms(a + b) == entries_ms(a).add(entries_ms(b)),
    decreases b.len(),
{
    if b.len() == 0 {
        assert(a + b =~= a);
        assert(entries_ms(b) =~= Multiset::<Record>::empty());
        assert(entries_ms(a + b) =~= entries_ms(a).add(entries_ms(b)));
    } else {
        lemma_entries_ms_concat(a, b.drop_last());
        assert((a + b).drop_last() =~= a + b.drop_last());
        assert((a + b).last() == b.last());
        assert(entries_ms(a + b) =~= entries_ms(a).add(entries_ms(b)));
    }
}

/// Grouping loses nothing: the flattened entries of a forest carry, as a
/// multiset, exactly the records of the forest.
pub proof fn lemma_gflat_complete(s: Seq<Node>)
    ensures
        entries_ms(gflat(s)) == crate::tree::forest_ms(s),
{
    lemma_gflat_level_ms(s, s.len() as int, None);
}

proof fn lemma_gflat_level_ms(s: Seq<Node>, k: int, pp: Option<Seq<char>>)
    ensures
        entries_ms(gflat_level(s, k, pp)) == crate::tree::forest_ms_upto(s, k),
    decreases s, k, 0int,
{
    if k <= 0 || k > s.len() {
        assert(entries_ms(gflat_level(s, k, pp)) =~= crate::tree::forest_ms_upto(s, k));
    } else {
        lemma_gflat_level_ms(s, k - 1, pp);
        lemma_gflat_node_ms(s[k - 1], pp);
        lemma_entries_ms_concat(gflat_level(s, k - 1, pp), gflat_node(s[k - 1], pp));
        assert(entries_ms(gflat_level(s, k, pp)) =~= crate::tree::forest_ms_upto(s, k));
    }
}

proof fn lemma_gflat_node_ms(n: Node, pp: Option<Seq<char>>)
    ensures
        entries_ms(gflat_node(n, pp)) == crate::tree::node_ms(n),
    decreases n, 0int, 0int,
{
    let head = seq![
        GroupEntry {
            record: n.record,
            depth: n.depth,
            size: subtree_total(n) as usize,
            direct: pp != Some(n.record.project_id@),
        },
    ];
    lemma_gflat_level_ms(n.children@, n.children@.len() as int, Some(n.record.project_id@));
    lemma_entries_ms_concat(
        head,
        gflat_level(n.children@, n.children@.len() as int, Some(n.record.project_id@)),
    );
    assert(head.drop_last() =~= Seq::<GroupEntry>::empty());
    assert(entries_ms(Seq::<GroupEntry>::empty()) == Multiset::<Record>::empty());
    assert(head.last().record == n.record);
    assert(entries_ms(head) =~= Multiset::<Record>::empty().insert(n.record));
    let gl = gflat_level(n.children@, n.children@.len() as int, Some(n.record.project_id@));
    assert(entries_ms(gflat_node(n, pp)) == entries_ms(head).add(entries_ms(gl)));
    assert forall|x: Record|
        entries_ms(gflat_node(n, pp)).count(x) == crate::tree::node_ms(n).count(x) by {
        assert(entries_ms(head).add(entries_ms(gl)).count(x) == entries_ms(head).count(x)
            + entries_ms(gl).count(x));
        assert(Multiset::<Record>::empty().insert(n.record).count(x) == Multiset::<
            Record,
        >::empty().count(x) + (if x == n.record {
            1int
        } else {
            0int
        }));
        assert(crate::tree::forest_ms_upto(n.children@, n.children@.len() as int).insert(
            n.record,
        ).count(x) == crate::tree::forest_ms_upto(n.children@, n.children@.len() as int).count(x)
            + (if x == n.record {
            1int
        } else {
            0int
        }));
    }
    assert(entries_ms(gflat_node(n, pp)) =~= crate::tree::node_ms(n));
}

} // verus!
