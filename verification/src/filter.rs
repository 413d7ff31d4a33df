//! The filter engine: prunes an assembled forest by a predicate, either
//! strictly (a failing node takes its whole subtree with it) or expandingly
//! (an ancestor is kept for the sake of any matching descendant).
use vstd::prelude::*;

use crate::model::Record;
use crate::tree::Node;

verus! {

/// A predicate over records, as the listing command builds them.
#[derive(Debug, Clone)]
pub enum Predicate {
    /// The record belongs to the project with this identifier.
    Project(String),
    /// The record sits in the section with this identifier.
    Section(String),
    /// The record carries at least one of these labels.
    AnyLabel(Vec<String>),
}

/// Whether a record carries a label of this name.
pub open spec fn has_label(r: Record, name: Seq<char>) -> bool {
    exists|m: int| 0 <= m < r.labels@.len() && (#[trigger] r.labels@[m])@ == name
}

/// Whether a record satisfies a predicate.
pub open spec fn pred_matches(p: Predicate, r: Record) -> bool {
    match p {
        Predicate::Project(id) => r.project_id@ == id@,
        Predicate::Section(id) => match r.section_id {
            Some(s) => s@ == id@,
            None => false,
        },
        Predicate::AnyLabel(ls) => exists|k: int|
            0 <= k < ls@.len() && has_label(r, (#[trigger] ls@[k])@),
    }
}

/// Whether a node survives the filter: in strict mode exactly when its own
/// record matches; in expanding mode also when any descendant's does.
pub open spec fn keeps(n: Node, p: Predicate, expand: bool) -> bool
    decreases n,
{
    ||| pred_matches(p, n.record)
    ||| (expand && exists|k: int|
        0 <= k < n.children@.len() && keeps(#[trigger] n.children@[k], p, expand))
}

/// `outs` is the filtered form of the first `k` nodes of `orig`: the
/// surviving nodes in their original order, each with its own children
/// filtered the same way.
pub open spec fn filtered_level(
    orig: Seq<Node>,
    k: int,
    outs: Seq<Node>,
    p: Predicate,
    expand: bool,
) -> bool
    decreases orig, k,
{
    if k <= 0 {
        outs.len() == 0
    } else if k > orig.len() {
        false
    } else if keeps(orig[k - 1], p, expand) {
        &&& outs.len() > 0
        &&& filtered_node(orig[k - 1], outs.last(), p, expand)
        &&& filtered_level(orig, k - 1, outs.drop_last(), p, expand)
    } else {
        filtered_level(orig, k - 1, outs, p, expand)
    }
}

/// `out` is the filtered form of the surviving node `orig`.
pub open spec fn filtered_node(orig: Node, out: Node, p: Predicate, expand: bool) -> bool
    decreases orig,
{
    &&& out.record == orig.record
    &&& out.depth == orig.depth
    &&& filtered_level(orig.children@, orig.children@.len() as int, out.children@, p, expand)
}

/// Strict filtering never asks the children: a node survives exactly when
/// its own record matches, so a failing node drops its whole subtree, and
/// a failing root leaves nothing behind.
pub proof fn lemma_strict_drops_subtree(n: Node, outs: Seq<Node>, p: Predicate)
    requires
        !pred_matches(p, n.record),
        filtered_level(seq![n], 1, outs, p, false),
    ensures
        !keeps(n, p, false),
        outs.len() == 0,
{
    assert(seq![n][0] == n);
    assert(!keeps(n, p, false));
    assert(filtered_level(seq![n], 0, outs, p, false) == (outs.len() == 0));
}

/// Expanding filtering keeps a non-matching node exactly when some child's
/// subtree survives; the node is then retained with its record and depth
/// unchanged and its children filtered in order.
pub proof fn lemma_expanding_retains(n: Node, outs: Seq<Node>, p: Predicate)
    requires
        !pred_matches(p, n.record),
        filtered_level(seq![n], 1, outs, p, true),
    ensures
        keeps(n, p, true) <==> exists|k: int|
            0 <= k < n.children@.len() && keeps(#[trigger] n.children@[k], p, true),
        keeps(n, p, true) ==> outs.len() == 1 && outs[0].record == n.record && outs[0].depth
            == n.depth && filtered_level(
            n.children@,
            n.children@.len() as int,
            outs[0].children@,
            p,
            true,
        ),
        !keeps(n, p, true) ==> outs.len() == 0,
{
    assert(seq![n][0] == n);
    assert(keeps(n, p, true) == (pred_matches(p, n.record) || (true && exists|k: int|
        0 <= k < n.children@.len() && keeps(#[trigger] n.children@[k], p, true))));
    if keeps(n, p, true) {
        assert(filtered_level(seq![n], 0, outs.drop_last(), p, true) == (outs.drop_last().len()
            == 0));
        assert(outs.drop_last().len() == 0);
        assert(outs.len() == 1);
        assert(outs.last() == outs[0]);
        assert(filtered_node(n, outs[0], p, true));
    } else {
        assert(filtered_level(seq![n], 0, outs, p, true) == (outs.len() == 0));
    }
}

fn matches_record(p: &Predicate, r: &Record) -> (b: bool)
    ensures
        b == pred_matches(*p, *r),
{
    match p {
        Predicate::Project(id) => r.project_id == *id,
        Predicate::Section(id) => match &r.section_id {
            Some(s) => *s == *id,
            None => false,
        },
        Predicate::AnyLabel(ls) => {
            let mut k: usize = 0;
            while k < ls.len()
                invariant
                    *p == Predicate::AnyLabel(*ls),
                    k <= ls@.len(),
                    forall|t: int| 0 <= t < k ==> !has_label(*r, (#[trigger] ls@[t])@),
                decreases ls@.len() - k,
            {
                let want = &ls[k];
                let mut m: usize = 0;
                while m < r.labels.len()
                    invariant
                        *p == Predicate::AnyLabel(*ls),
                        m <= r.labels@.len(),
                        want == ls@[k as int],
                        k < ls@.len(),
                        forall|t: int| 0 <= t < m ==> (#[trigger] r.labels@[t])@ != want@,
                    decreases r.labels@.len() - m,
                {
                    if r.labels[m] == *want {
                        proof {
                            assert(has_label(*r, ls@[k as int]@));
                            assert(*p == Predicate::AnyLabel(*ls));
                            assert((p->AnyLabel_0)@[k as int] == ls@[k as int]);
                            assert(has_label(*r, ((p->AnyLabel_0)@[k as int])@));
                            assert(pred_matches(*p, *r));
                        }
                        return true;
                    }
                    m += 1;
                }
                proof {
                    assert(!has_label(*r, ls@[k as int]@));
                }
                k += 1;
            }
            false
        },
    }
}

fn keeps_node(n: &Node, p: &Predicate, expand: bool) -> (b: bool)
    ensures
        b == keeps(*n, *p, expand),
    decreases *n,
{
    if matches_record(p, &n.record) {
        return true;
    }
    if !expand {
        return false;
    }
    let mut k: usize = 0;
    while k < n.children.len()
        invariant
            k <= n.children@.len(),
            !pred_matches(*p, n.record),
            expand,
            forall|t: int| 0 <= t < k ==> !keeps(#[trigger] n.children@[t], *p, expand),
        decreases n.children@.len() - k,
    {
        if keeps_node(&n.children[k], p, expand) {
            return true;
        }
        k += 1;
    }
    false
}

/// Filters the first-level nodes of a forest and, recursively, their
/// subtrees.
fn filter_nodes(nodes: Vec<Node>, p: &Predicate, expand: bool) -> (outs: Vec<Node>)
    ensures
        filtered_level(nodes@, nodes@.len() as int, outs@, *p, expand),
    decreases nodes,
{
    let ghost origv = nodes@;
    let mut rest = nodes;
    let mut outs: Vec<Node> = Vec::new();
    let mut j: usize = 0;
    let n = rest.len();
    while j < n
        invariant
            j <= n,
            n == origv.len(),
            rest@ == origv.skip(j as int),
            origv == nodes@,
            filtered_level(origv, j as int, outs@, *p, expand),
        decreases n - j,
    {
        let c = rest.remove(0);
        proof {
            assert(c == origv[j as int]);
            assert(origv.skip(j as int).remove(0) =~= origv.skip(j as int + 1));
            broadcast use vstd::seq::axiom_seq_index_decreases;
            broadcast use vstd::std_specs::vec::axiom_vec_decreases_to_view;

            assert(decreases_to!(origv => origv[j as int]));
            assert(decreases_to!(nodes => nodes@));
            assert(decreases_to!(nodes => c));
        }
        if keeps_node(&c, p, expand) {
            let ghost outspre = outs@;
            let fc = filter_node(c, p, expand);
            outs.push(fc);
            proof {
                assert(outs@.drop_last() =~= outspre);
                assert(outs@.last() == fc);
            }
        }
        j += 1;
    }
    outs
}

/// Filters one surviving node: the record and depth stay, the children are
/// filtered in order.
fn filter_node(n: Node, p: &Predicate, expand: bool) -> (out: Node)
    ensures
        filtered_node(n, out, *p, expand),
    decreases n,
{
    let ghost n0 = n;
    let Node { record, depth, children } = n;
    let fkids = filter_nodes(children, p, expand);
    let out = Node { record, depth, children: fkids };
    proof {
        assert(out.record == n0.record);
        assert(filtered_node(n0, out, *p, expand));
    }
    out
}

/// Filters a forest by a predicate. In strict mode (`expand` false) a node
/// survives exactly when its own record matches, and a failing node takes
/// its whole subtree with it. In expanding mode a node also survives when
/// any of its descendants matches, standing as context above them. The
/// surviving siblings keep their relative order, and every node keeps its
/// record and computed depth.
pub fn filter_forest(forest: Vec<Node>, p: &Predicate, expand: bool) -> (outs: Vec<Node>)
    ensures
        filtered_level(forest@, forest@.len() as int, outs@, *p, expand),
{
    filter_nodes(forest, p, expand)
}

/// The three narrowing passes of the listing command, through their two
/// intermediate forests: by project, then by section, then by labels.
/// Absent selections and an empty label list filter nothing.
pub open spec fn selection_chain(
    forest: Seq<Node>,
    f1: Seq<Node>,
    f2: Seq<Node>,
    outs: Seq<Node>,
    project: Option<String>,
    section: Option<String>,
    labels: Vec<String>,
    expand: bool,
) -> bool {
    &&& (match project {
        Some(pid) => filtered_level(forest, forest.len() as int, f1, Predicate::Project(pid), expand),
        None => f1 == forest,
    })
    &&& (match section {
        Some(sid) => filtered_level(f1, f1.len() as int, f2, Predicate::Section(sid), expand),
        None => f2 == f1,
    })
    &&& (if labels@.len() > 0 {
        filtered_level(f2, f2.len() as int, outs, Predicate::AnyLabel(labels), expand)
    } else {
        outs == f2
    })
}

/// Narrows a listing as the listing command does: by the selected project,
/// then the selected section, then the selected labels, each pass keeping
/// ancestors only in expanding mode.
pub fn filter_by_selection(
    forest: Vec<Node>,
    project: Option<String>,
    section: Option<String>,
    labels: Vec<String>,
    expand: bool,
) -> (outs: Vec<Node>)
    ensures
        exists|f1: Seq<Node>, f2: Seq<Node>| #[trigger] selection_chain(
            forest@,
            f1,
            f2,
            outs@,
            project,
            section,
            labels,
            expand,
        ),
{
    let mut cur = forest;
    let ghost forest0 = cur@;
    match project {
        Some(pid) => {
            cur = filter_forest(cur, &Predicate::Project(pid), expand);
        },
        None => {},
    }
    let ghost f1 = cur@;
    match section {
        Some(sid) => {
            cur = filter_forest(cur, &Predicate::Section(sid), expand);
        },
        None => {},
    }
    let ghost f2 = cur@;
    let ghost labels0 = labels;
    if labels.len() > 0 {
        cur = filter_forest(cur, &Predicate::AnyLabel(labels), expand);
    }
    proof {
        assert(selection_chain(forest0, f1, f2, cur@, project, section, labels0, expand));
    }
    cur
}

} // verus!
