//! The sort engine: a default multi-key comparator mirroring the reference
//! product's display order, and override keys for creation time and
//! duration.
use vstd::prelude::*;
use vstd::utf8::encode_utf8;

use crate::dates::parse_rfc3339;
use crate::dates::rfc3339_instant;
use crate::model::Record;
use crate::tree::Node;

verus! {

/// Sort key chosen for a listing; when none is given the default
/// comparator applies.
#[derive(Debug, Clone, Copy, PartialEq, Eq, Structural)]
pub enum SortBy {
    /// Sort by creation time, oldest first.
    Created,
    /// Sort by duration, shortest first.
    Duration,
}

/// The UTF-8 bytes of a string, the order Rust compares strings in.
pub open spec fn str_bytes(s: Seq<char>) -> Seq<u8> {
    encode_utf8(s)
}

/// Lexicographic order on byte strings.
pub open spec fn lex_le(x: Seq<u8>, y: Seq<u8>) -> bool
    decreases x.len(),
{
    if x.len() == 0 {
        true
    } else if y.len() == 0 {
        false
    } else if x[0] != y[0] {
        x[0] < y[0]
    } else {
        lex_le(x.drop_first(), y.drop_first())
    }
}

pub proof fn lemma_lex_le_total(x: Seq<u8>, y: Seq<u8>)
    ensures
        lex_le(x, y) || lex_le(y, x),
    decreases x.len(),
{
    if x.len() > 0 && y.len() > 0 && x[0] == y[0] {
        lemma_lex_le_total(x.drop_first(), y.drop_first());
    }
}

pub proof fn lemma_lex_le_antisym(x: Seq<u8>, y: Seq<u8>)
    requires
        lex_le(x, y),
        lex_le(y, x),
    ensures
        x == y,
    decreases x.len(),
{
    if x.len() == 0 {
        assert(y.len() == 0);
        assert(x =~= y);
    } else {
        assert(y.len() > 0);
        assert(x[0] == y[0]);
        lemma_lex_le_antisym(x.drop_first(), y.drop_first());
        assert(x =~= seq![x[0]] + x.drop_first());
        assert(y =~= seq![y[0]] + y.drop_first());
    }
}

pub proof fn lemma_lex_le_trans(x: Seq<u8>, y: Seq<u8>, z: Seq<u8>)
    requires
        lex_le(x, y),
        lex_le(y, z),
    ensures
        lex_le(x, z),
    decreases x.len(),
{
    if x.len() > 0 && y.len() > 0 && z.len() > 0 && x[0] == y[0] && y[0] == z[0] {
        lemma_lex_le_trans(x.drop_first(), y.drop_first(), z.drop_first());
    }
}

/// The exact due instant of a record: the instant its due date string
/// denotes, when that string is a full RFC 3339 timestamp rather than a
/// bare date.
pub open spec fn due_instant_of(r: Record) -> Option<i64> {
    match r.due {
        Some(d) => rfc3339_instant(d.date@),
        None => None,
    }
}

/// The tail of the default comparator, after the exact due instants: most
/// urgent priority first, then the manual order ascending, then the
/// identifier ascending.
pub open spec fn default_rest_le(a: Record, b: Record) -> bool {
    if a.priority.rank() != b.priority.rank() {
        a.priority.rank() > b.priority.rank()
    } else if a.order != b.order {
        a.order < b.order
    } else {
        lex_le(str_bytes(a.id@), str_bytes(b.id@))
    }
}

/// The default comparator: an exact due timestamp outranks everything
/// without one and earlier deadlines come first; ties fall to priority,
/// manual order, and the identifier.
pub open spec fn default_le(a: Record, b: Record) -> bool {
    match (due_instant_of(a), due_instant_of(b)) {
        (Some(x), Some(y)) => if x != y {
            x < y
        } else {
            default_rest_le(a, b)
        },
        (Some(x), None) => true,
        (None, Some(y)) => false,
        (None, None) => default_rest_le(a, b),
    }
}

/// Creation time ascending, oldest first, with the identifier as
/// tie-break for determinism.
pub open spec fn created_le(a: Record, b: Record) -> bool {
    if a.created_at != b.created_at {
        a.created_at < b.created_at
    } else {
        lex_le(str_bytes(a.id@), str_bytes(b.id@))
    }
}

/// Duration ascending by normalized minutes; a record with a duration
/// comes before one without; when neither has one, the default comparator
/// decides.
pub open spec fn duration_le(a: Record, b: Record) -> bool {
    match (a.duration, b.duration) {
        (Some(da), Some(db)) => da.spec_minutes() <= db.spec_minutes(),
        (Some(da), None) => true,
        (None, Some(db)) => false,
        (None, None) => default_le(a, b),
    }
}

/// The order a listing uses: the chosen key's comparator, or the default
/// one when no key was chosen.
pub open spec fn record_le(key: Option<SortBy>, a: Record, b: Record) -> bool {
    match key {
        None => default_le(a, b),
        Some(SortBy::Created) => created_le(a, b),
        Some(SortBy::Duration) => duration_le(a, b),
    }
}

pub proof fn lemma_record_le_total(key: Option<SortBy>, a: Record, b: Record)
    ensures
        record_le(key, a, b) || record_le(key, b, a),
{
    lemma_lex_le_total(str_bytes(a.id@), str_bytes(b.id@));
}

pub proof fn lemma_record_le_trans(key: Option<SortBy>, a: Record, b: Record, c: Record)
    requires
        record_le(key, a, b),
        record_le(key, b, c),
    ensures
        record_le(key, a, c),
{
    if lex_le(str_bytes(a.id@), str_bytes(b.id@)) && lex_le(
        str_bytes(b.id@),
        str_bytes(c.id@),
    ) {
        lemma_lex_le_trans(str_bytes(a.id@), str_bytes(b.id@), str_bytes(c.id@));
    }
}

/// Exact-due precedence: under the default order, a record with an exact
/// due timestamp comes before any record without one, whatever the
/// priorities.
pub proof fn lemma_exact_due_precedence(a: Record, b: Record)
    requires
        due_instant_of(a) is Some,
        due_instant_of(b) is None,
    ensures
        default_le(a, b),
        !default_le(b, a),
{
}

/// Duration precedence: under the duration order, smaller normalized
/// durations come first, and a record with a duration comes before one
/// without.
pub proof fn lemma_duration_order(a: Record, b: Record)
    requires
        match (a.duration, b.duration) {
            (Some(da), Some(db)) => da.spec_minutes() < db.spec_minutes(),
            (Some(da), None) => true,
            _ => false,
        },
    ensures
        duration_le(a, b),
        !duration_le(b, a),
{
}


/// Under the default and creation-time orders, mutual precedence forces
/// equal identifiers: the byte order on identifiers is the final tie-break.
pub proof fn lemma_record_le_antisym(key: Option<SortBy>, a: Record, b: Record)
    requires
        !(key is Some && key->Some_0 is Duration),
        record_le(key, a, b),
        record_le(key, b, a),
    ensures
        a.id@ == b.id@,
{
    assert(lex_le(str_bytes(a.id@), str_bytes(b.id@)));
    assert(lex_le(str_bytes(b.id@), str_bytes(a.id@)));
    lemma_lex_le_antisym(str_bytes(a.id@), str_bytes(b.id@));
    broadcast use vstd::utf8::encode_utf8_decode_utf8;

    assert(vstd::utf8::decode_utf8(encode_utf8(a.id@)) == a.id@);
    assert(vstd::utf8::decode_utf8(encode_utf8(b.id@)) == b.id@);
}

/// Compares two strings in the byte order Rust's `String` ordering uses.
pub fn str_le(a: &str, b: &str) -> (r: bool)
    ensures
        r == lex_le(str_bytes(a@), str_bytes(b@)),
{
    let xa = a.as_bytes();
    let xb = b.as_bytes();
    let na = xa.len();
    let nb = xb.len();
    let mut i: usize = 0;
    proof {
        assert(xa@.skip(0) =~= xa@);
        assert(xb@.skip(0) =~= xb@);
    }
    while i < na && i < nb
        invariant
            i <= na,
            i <= nb,
            xa@ == str_bytes(a@),
            xb@ == str_bytes(b@),
            na == xa@.len(),
            nb == xb@.len(),
            lex_le(xa@, xb@) == lex_le(xa@.skip(i as int), xb@.skip(i as int)),
        decreases na - i,
    {
        if xa[i] != xb[i] {
            proof {
                assert(xa@.skip(i as int)[0] == xa@[i as int]);
                assert(xb@.skip(i as int)[0] == xb@[i as int]);
            }
            return xa[i] < xb[i];
        }
        proof {
            assert(xa@.skip(i as int).drop_first() =~= xa@.skip(i as int + 1));
            assert(xb@.skip(i as int).drop_first() =~= xb@.skip(i as int + 1));
            assert(xa@.skip(i as int)[0] == xb@.skip(i as int)[0]);
        }
        i += 1;
    }
    proof {
        if i == na {
            assert(xa@.skip(i as int).len() == 0);
        } else {
            assert(xb@.skip(i as int).len() == 0);
            assert(xa@.skip(i as int).len() > 0);
        }
    }
    na <= nb
}

fn record_due_instant(r: &Record) -> (o: Option<i64>)
    ensures
        o == due_instant_of(*r),
{
    match &r.due {
        Some(d) => match parse_rfc3339(d.date.as_str()) {
            Some(p) => Some(p.0),
            None => None,
        },
        None => None,
    }
}

fn default_rest_precedes(a: &Record, b: &Record) -> (r: bool)
    ensures
        r == default_rest_le(*a, *b),
{
    let pa = a.priority.value();
    let pb = b.priority.value();
    if pa != pb {
        pa > pb
    } else if a.order != b.order {
        a.order < b.order
    } else {
        str_le(a.id.as_str(), b.id.as_str())
    }
}

fn default_precedes(a: &Record, b: &Record) -> (r: bool)
    ensures
        r == default_le(*a, *b),
{
    match (record_due_instant(a), record_due_instant(b)) {
        (Some(x), Some(y)) => if x != y {
            x < y
        } else {
            default_rest_precedes(a, b)
        },
        (Some(_), None) => true,
        (None, Some(_)) => false,
        (None, None) => default_rest_precedes(a, b),
    }
}

/// Whether `a` comes before `b` (or ties with it) under the chosen key.
pub fn record_precedes(key: &Option<SortBy>, a: &Record, b: &Record) -> (r: bool)
    ensures
        r == record_le(*key, *a, *b),
{
    match key {
        None => default_precedes(a, b),
        Some(SortBy::Created) => {
            if a.created_at != b.created_at {
                a.created_at < b.created_at
            } else {
                str_le(a.id.as_str(), b.id.as_str())
            }
        },
        Some(SortBy::Duration) => {
            match (&a.duration, &b.duration) {
                (Some(da), Some(db)) => da.minutes() <= db.minutes(),
                (Some(_), None) => true,
                (None, Some(_)) => false,
                (None, None) => default_precedes(a, b),
            }
        },
    }
}

proof fn lemma_to_ms_insert(s: Seq<Node>, j: int, x: Node)
    requires
        0 <= j <= s.len(),
    ensures
        s.insert(j, x).to_multiset() == s.to_multiset().insert(x),
    decreases s.len() - j,
{
    broadcast use vstd::seq_lib::group_to_multiset_ensures;

    if j == s.len() {
        assert(s.insert(j, x) =~= s.push(x));
    } else {
        lemma_to_ms_insert(s.drop_last(), j, x);
        assert(s.insert(j, x) =~= s.drop_last().insert(j, x).push(s.last()));
        assert(s =~= s.drop_last().push(s.last()));
        assert forall|e: Node|
            s.insert(j, x).to_multiset().count(e) == s.to_multiset().insert(x).count(e) by {
            assert(s.insert(j, x).to_multiset().count(e) == s.drop_last().insert(
                j,
                x,
            ).to_multiset().insert(s.last()).count(e));
            assert(s.drop_last().insert(j, x).to_multiset().count(e) == s.drop_last()
                .to_multiset().insert(x).count(e));
            assert(s.to_multiset().count(e) == s.drop_last().to_multiset().insert(
                s.last(),
            ).count(e));
        }
        assert(s.insert(j, x).to_multiset() =~= s.to_multiset().insert(x));
    }
}

/// Sorts one sibling list: the result is a permutation of the input in
/// which every record precedes the ones after it under the chosen key.
/// Equal records keep their input order.
pub fn sort_nodes(nodes: &mut Vec<Node>, key: &Option<SortBy>)
    ensures
        final(nodes)@.len() == old(nodes)@.len(),
        final(nodes)@.to_multiset() == old(nodes)@.to_multiset(),
        forall|x: int, y: int|
            #![trigger final(nodes)@[x], final(nodes)@[y]]
            0 <= x < y < final(nodes)@.len() ==> record_le(
                *key,
                final(nodes)@[x].record,
                final(nodes)@[y].record,
            ),
{
    let ghost orig = nodes@;
    let n = nodes.len();
    let mut i: usize = 1;
    while i < n
        invariant
            1 <= i,
            i <= n || n <= 1,
            nodes@.len() == n,
            nodes@.to_multiset() == orig.to_multiset(),
            forall|x: int, y: int|
                #![trigger nodes@[x], nodes@[y]]
                0 <= x < y < i && y < n ==> record_le(*key, nodes@[x].record, nodes@[y].record),
        decreases n - i,
    {
        let mut j: usize = 0;
        while j < i
            invariant_except_break
                j <= i,
                i < n,
                nodes@.len() == n,
                forall|k: int| 0 <= k < j ==> record_le(
                    *key,
                    (#[trigger] nodes@[k]).record,
                    nodes@[i as int].record,
                ),
            ensures
                j <= i,
                nodes@.len() == n,
                forall|k: int| 0 <= k < j ==> record_le(
                    *key,
                    (#[trigger] nodes@[k]).record,
                    nodes@[i as int].record,
                ),
                j < i ==> !record_le(*key, nodes@[j as int].record, nodes@[i as int].record),
            decreases i - j,
        {
            if !record_precedes(key, &nodes[j].record, &nodes[i].record) {
                break;
            }
            j += 1;
        }
        let ghost pre = nodes@;
        let x = nodes.remove(i);
        let ghost mid = nodes@;
        nodes.insert(j, x);
        proof {
            broadcast use vstd::seq_lib::group_to_multiset_ensures;

            assert(mid.to_multiset() == pre.to_multiset().remove(x));
            lemma_to_ms_insert(mid, j as int, x);
            assert(pre.to_multiset().contains(x));
            assert(nodes@.to_multiset() =~= pre.to_multiset());
            // The prefix up to and including the inserted element is
            // ordered.
            assert forall|p: int, q: int|
                #![trigger nodes@[p], nodes@[q]]
                0 <= p < q < i + 1 && q < n implies record_le(
                *key,
                nodes@[p].record,
                nodes@[q].record,
            ) by {
                let jj = j as int;
                let ii = i as int;
                if q < jj {
                    assert(nodes@[p] == pre[p] && nodes@[q] == pre[q]);
                } else if q == jj {
                    assert(nodes@[p] == pre[p] && nodes@[q] == x);
                } else if p < jj {
                    assert(nodes@[p] == pre[p] && nodes@[q] == pre[q - 1]);
                } else if p == jj {
                    assert(nodes@[p] == x && nodes@[q] == pre[q - 1]);
                    if jj < ii {
                        lemma_record_le_total(*key, x.record, pre[jj].record);
                        assert(record_le(*key, x.record, pre[jj].record));
                        if jj < q - 1 {
                            assert(record_le(*key, pre[jj].record, pre[q - 1].record));
                            lemma_record_le_trans(
                                *key,
                                x.record,
                                pre[jj].record,
                                pre[q - 1].record,
                            );
                        }
                    }
                } else {
                    assert(nodes@[p] == pre[p - 1] && nodes@[q] == pre[q - 1]);
                }
            }
        }
        i += 1;
    }
}

/// Default-order determinism: two orderings of the same sibling nodes that
/// are both sorted under a key with a full identifier tie-break are the
/// same ordering, provided no identifier repeats.
pub proof fn lemma_sorted_unique_nodes(a: Seq<Node>, b: Seq<Node>, key: Option<SortBy>)
    requires
        !(key is Some && key->Some_0 is Duration),
        a.to_multiset() == b.to_multiset(),
        forall|x: int, y: int|
            #![trigger a[x], a[y]]
            0 <= x < y < a.len() ==> record_le(key, a[x].record, a[y].record),
        forall|x: int, y: int|
            #![trigger b[x], b[y]]
            0 <= x < y < b.len() ==> record_le(key, b[x].record, b[y].record),
        forall|x: int, y: int|
            #![trigger a[x], a[y]]
            0 <= x < y < a.len() ==> a[x].record.id@ != a[y].record.id@,
    ensures
        a == b,
    decreases a.len(),
{
    broadcast use vstd::seq_lib::group_to_multiset_ensures;

    a.to_multiset_ensures();
    b.to_multiset_ensures();
    if a.len() == 0 {
        assert(b.to_multiset().len() == 0);
        assert(a =~= b);
    } else {
        assert(a.to_multiset().len() == b.to_multiset().len());
        assert(b.len() > 0);
        assert(a.to_multiset().contains(a[0]));
        assert(b.to_multiset().contains(b[0]));
        assert(a.contains(b[0]));
        assert(b.contains(a[0]));
        let ia = choose|ia: int| 0 <= ia < a.len() && a[ia] == b[0];
        let ib = choose|ib: int| 0 <= ib < b.len() && b[ib] == a[0];
        if ia == 0 || ib == 0 {
            assert(a[0] == b[0]);
        } else {
            assert(record_le(key, a[0].record, a[ia].record));
            assert(record_le(key, b[0].record, b[ib].record));
            lemma_record_le_antisym(key, a[0].record, b[0].record);
            assert(a[0].record.id@ == a[ia].record.id@);
            assert(false);
        }
        assert(a[0] == b[0]);
        assert(a.drop_first() =~= a.remove(0));
        assert(b.drop_first() =~= b.remove(0));
        assert(a.remove(0).to_multiset() =~= a.to_multiset().remove(a[0]));
        assert(b.remove(0).to_multiset() =~= b.to_multiset().remove(b[0]));
        assert(a.drop_first().to_multiset() =~= a.to_multiset().remove(a[0]));
        assert(b.drop_first().to_multiset() =~= b.to_multiset().remove(b[0]));
        lemma_sorted_unique_nodes(a.drop_first(), b.drop_first(), key);
        assert(a =~= seq![a[0]] + a.drop_first());
        assert(b =~= seq![b[0]] + b.drop_first());
    }
}


/// One printed line of a listing: a record and the indentation depth of
/// its node.
#[derive(Debug, Clone)]
pub struct Row {
    /// The record shown on this line.
    pub record: Record,
    /// The depth of the node the record came from.
    pub depth: usize,
}

/// Every pair of siblings appears in order under the chosen key.
pub open spec fn level_sorted(nodes: Seq<Node>, key: Option<SortBy>) -> bool {
    forall|x: int, y: int|
        #![trigger nodes[x], nodes[y]]
        0 <= x < y < nodes.len() ==> record_le(key, nodes[x].record, nodes[y].record)
}

/// The concatenation of the per-node row segments of a listing.
pub open spec fn concat_rows(segs: Seq<Seq<Row>>) -> Seq<Row>
    decreases segs.len(),
{
    if segs.len() == 0 {
        Seq::empty()
    } else {
        concat_rows(segs.drop_last()) + segs.last()
    }
}

/// `rows` lists the forest `nodes`: the top level appears as some ordering
/// of the nodes that is sorted under the key, and each node contributes
/// its own row followed by the listing of its children.
pub open spec fn listing_of(nodes: Seq<Node>, rows: Seq<Row>, key: Option<SortBy>) -> bool
    decreases rows.len(), 1int,
{
    exists|sorted: Seq<Node>, segs: Seq<Seq<Row>>|
        {
            &&& sorted.to_multiset() == nodes.to_multiset()
            &&& level_sorted(sorted, key)
            &&& segs.len() == sorted.len()
            &&& rows == concat_rows(segs)
            &&& forall|k: int|
                0 <= k < segs.len() ==> (#[trigger] segs[k]).len() <= rows.len()
                    && node_listing_of(sorted[k], segs[k], key)
        }
}

/// `rows` lists the subtree of `n`: its own record first, at its own
/// depth, then the listing of its children.
pub open spec fn node_listing_of(n: Node, rows: Seq<Row>, key: Option<SortBy>) -> bool
    decreases rows.len(), 0int,
{
    &&& rows.len() >= 1
    &&& rows[0] == (Row { record: n.record, depth: n.depth })
    &&& listing_of(n.children@, rows.skip(1), key)
}

proof fn lemma_concat_rows_bound(segs: Seq<Seq<Row>>, k: int)
    requires
        0 <= k < segs.len(),
    ensures
        segs[k].len() <= concat_rows(segs).len(),
    decreases segs.len(),
{
    if k == segs.len() - 1 {
    } else {
        lemma_concat_rows_bound(segs.drop_last(), k);
    }
}

fn listing_node(n: Node, key: &Option<SortBy>, out: &mut Vec<Row>)
    ensures
        final(out)@.len() > old(out)@.len(),
        old(out)@.is_prefix_of(final(out)@),
        node_listing_of(n, final(out)@.skip(old(out)@.len() as int), *key),
    decreases n,
{
    let ghost base = out@;
    let Node { record, depth, children } = n;
    out.push(Row { record, depth });
    proof {
        assert(out@ =~= base.push(Row { record: n.record, depth: n.depth }));
    }
    listing_forest(children, key, out);
    proof {
        let mid = base.push(Row { record: n.record, depth: n.depth });
        assert(mid.is_prefix_of(out@));
        let rs = out@.skip(base.len() as int);
        assert(out@[base.len() as int] == mid[base.len() as int]);
        assert(rs[0] == (Row { record: n.record, depth: n.depth }));
        assert(rs.skip(1) =~= out@.skip(mid.len() as int));
        assert(rs.len() >= 1);
        assert(node_listing_of(n, rs, *key));
    }
}

/// Lists a forest: sorts the sibling nodes under the key, then emits each
/// node's row followed, recursively, by the listing of its children.
fn listing_forest(nodes: Vec<Node>, key: &Option<SortBy>, out: &mut Vec<Row>)
    ensures
        old(out)@.is_prefix_of(final(out)@),
        listing_of(nodes@, final(out)@.skip(old(out)@.len() as int), *key),
    decreases nodes,
{
    let ghost base = out@;
    let ghost origv = nodes@;
    let mut sorted_nodes = nodes;
    sort_nodes(&mut sorted_nodes, key);
    let ghost sortedv = sorted_nodes@;
    let ghost mut segs: Seq<Seq<Row>> = Seq::empty();
    let mut idx: usize = 0;
    let n = sorted_nodes.len();
    proof {
        assert(concat_rows(segs) =~= Seq::<Row>::empty());
        assert(out@.skip(base.len() as int) =~= Seq::<Row>::empty());
    }
    while idx < n
        invariant
            idx <= n,
            n == sortedv.len(),
            sorted_nodes@ == sortedv.skip(idx as int),
            segs.len() == idx,
            base.is_prefix_of(out@),
            out@.skip(base.len() as int) == concat_rows(segs),
            forall|k: int| 0 <= k < segs.len() ==> node_listing_of(
                sortedv[k],
                #[trigger] segs[k],
                *key,
            ),
            level_sorted(sortedv, *key),
            sortedv.to_multiset() == origv.to_multiset(),
            origv == nodes@,
        decreases n - idx,
    {
        let ghost outpre = out@;
        let c = sorted_nodes.remove(0);
        proof {
            assert(c == sortedv[idx as int]);
            assert(sortedv.skip(idx as int).remove(0) =~= sortedv.skip(idx as int + 1));
            // The node taken out is one of the original nodes, so the
            // recursion shrinks the forest.
            origv.to_multiset_ensures();
            sortedv.to_multiset_ensures();
            assert(sortedv.to_multiset().contains(c));
            assert(origv.contains(c));
            let w = choose|w: int| 0 <= w < origv.len() && origv[w] == c;
            assert(origv[w] == c);
            broadcast use vstd::seq::axiom_seq_index_decreases;
            broadcast use vstd::std_specs::vec::axiom_vec_decreases_to_view;

            assert(decreases_to!(origv => origv[w]));
            assert(decreases_to!(nodes => nodes@));
            assert(decreases_to!(nodes => c));
        }
        listing_node(c, key, out);
        proof {
            let seg = out@.skip(outpre.len() as int);
            let segspre = segs;
            segs = segs.push(seg);
            assert(segs.drop_last() =~= segspre);
            assert(concat_rows(segs) == concat_rows(segspre) + seg);
            assert(outpre.is_prefix_of(out@));
            assert(base.is_prefix_of(out@));
            assert(out@.skip(base.len() as int) =~= concat_rows(segspre) + seg) by {
                assert(outpre.skip(base.len() as int) == concat_rows(segspre));
                assert forall|z: int|
                    0 <= z < out@.len() - base.len() implies out@.skip(base.len() as int)[z] == (
                concat_rows(segspre) + seg)[z] by {
                    if z < outpre.len() - base.len() {
                        assert(out@[base.len() + z] == outpre[base.len() + z]);
                    }
                }
            }
            assert(out@.skip(base.len() as int) =~= concat_rows(segs));
        }
        idx += 1;
    }
    proof {
        let rows = out@.skip(base.len() as int);
        assert(sorted_nodes@.len() == 0);
        assert forall|k: int| 0 <= k < segs.len() implies (#[trigger] segs[k]).len()
            <= rows.len() && node_listing_of(sortedv[k], segs[k], *key) by {
            lemma_concat_rows_bound(segs, k);
        }
        assert(listing_of(origv, rows, *key));
    }
}

/// Produces the rows of a listing: the forest flattened in display order,
/// every sibling group ordered under the chosen key (the default order
/// when none is chosen), children printed under their parent.
pub fn listing_rows(forest: Vec<Node>, key: &Option<SortBy>) -> (rows: Vec<Row>)
    ensures
        listing_of(forest@, rows@, *key),
{
    let mut out: Vec<Row> = Vec::new();
    listing_forest(forest, key, &mut out);
    proof {
        assert(out@.skip(0) =~= out@);
    }
    out
}

} // verus!
