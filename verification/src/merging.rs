//! What holds of merging, whatever the files are.

use crate::error::ErrorKind;
use crate::graph::merge::lemma_data_stays_failed;
use crate::model::{
    counts_follow_function,
    add_all_arcs_model, add_arcs_model, add_blocks_model, add_counts_model, add_function_model,
    bump, can_merge_model, collect, data_key, merge_data_model, merge_failure, merge_function_model,
    merge_functions_model, merge_model, model_wf, version_accepted, ArcInfo, ArcsModel, Building,
    DataState, GraphModel, IdentityModel, Pending,
};
use crate::raw::{Record, Type, Version};
use vstd::prelude::*;

verus! {

/// A file of another version than the graph is refused with `VersionMismatch`, and the
/// graph stays as it is.
pub proof fn lemma_version_mismatch(
    m: GraphModel,
    ty: Type,
    version: Version,
    stamp: u32,
    records: Seq<Record>,
)
    requires
        m.version != Version::spec_invalid(),
        m.version != version,
    ensures
        merge_model(m, ty, version, stamp, records) == m,
        merge_failure(m, ty, version, stamp, records) == Some(
            (ErrorKind::VersionMismatch(m.version, version), None::<nat>),
        ),
{
}

/// A data file whose first function no note file has announced is refused with
/// `MissingFunction` at the record of that function, and the graph stays as it is. The
/// graph must have the version of the file already.
pub proof fn lemma_data_without_notes(
    m: GraphModel,
    version: Version,
    stamp: u32,
    records: Seq<Record>,
    first: int,
)
    requires
        m.version == version,
        can_merge_model(m, Type::Gcda, version, records),
        0 <= first < records.len(),
        records[first] is Function,
        forall|j: int| 0 <= j < first ==> !((#[trigger] records[j]) is Function),
        !m.data_index.contains_key(data_key(stamp, records[first]->Function_0, records[first]->Function_1)),
    ensures
        merge_model(m, Type::Gcda, version, stamp, records) == m,
        merge_failure(m, Type::Gcda, version, stamp, records) == Some(
            (ErrorKind::MissingFunction(stamp, records[first]->Function_0), Some(first as nat)),
        ),
{
    let adopted = GraphModel { version, ..m };
    assert(adopted == m);
    lemma_nothing_before_first_function(m, stamp, records, first, first as nat);
    let failed = merge_data_model(m, stamp, records, (first + 1) as nat);
    assert(failed.failure is Some);
    lemma_data_stays_failed(m, stamp, records, (first + 1) as nat, records.len());
}

proof fn lemma_nothing_before_first_function(
    m: GraphModel,
    stamp: u32,
    records: Seq<Record>,
    first: int,
    n: nat,
)
    requires
        can_merge_model(m, Type::Gcda, m.version, records),
        0 <= first < records.len(),
        n <= first,
        forall|j: int| 0 <= j < first ==> !((#[trigger] records[j]) is Function),
    ensures
        merge_data_model(m, stamp, records, n) == (DataState {
            graph: m,
            current: None,
            failure: None,
        }),
    decreases n,
{
    if n > 0 {
        lemma_nothing_before_first_function(m, stamp, records, first, (n - 1) as nat);
        let r = records[n - 1];
        assert(!(r is Function));
        if r is ArcCounts {
            let j = choose|j: int| 0 <= j < n - 1 && (#[trigger] records[j]) is Function;
            assert(false);
        }
    }
}

/// The data index after the first `n` of the keys were given their values, one after the
/// other.
pub open spec fn inserts(
    index: Map<u128, usize>,
    keys: Seq<u128>,
    values: Seq<usize>,
    n: nat,
) -> Map<u128, usize>
    decreases n,
{
    if n == 0 {
        index
    } else {
        inserts(index, keys, values, (n - 1) as nat).insert(keys[n - 1], values[n - 1])
    }
}

/// The last place among the first `n` keys where the key `x` stands.
spec fn last_of(keys: Seq<u128>, x: u128, n: nat) -> Option<int>
    decreases n,
{
    if n == 0 {
        None
    } else if keys[n - 1] == x {
        Some(n - 1)
    } else {
        last_of(keys, x, (n - 1) as nat)
    }
}

proof fn lemma_inserts(index: Map<u128, usize>, keys: Seq<u128>, values: Seq<usize>, n: nat, x: u128)
    ensures
        inserts(index, keys, values, n).contains_key(x) <==> index.contains_key(x) || last_of(
            keys,
            x,
            n,
        ) is Some,
        inserts(index, keys, values, n)[x] == (match last_of(keys, x, n) {
            Some(j) => values[j],
            None => index[x],
        }),
    decreases n,
{
    if n > 0 {
        lemma_inserts(index, keys, values, (n - 1) as nat, x);
    }
}

/// Giving keys their values a second time changes nothing.
pub proof fn lemma_inserts_twice(
    index: Map<u128, usize>,
    keys: Seq<u128>,
    values: Seq<usize>,
    n: nat,
)
    ensures
        inserts(inserts(index, keys, values, n), keys, values, n) == inserts(
            index,
            keys,
            values,
            n,
        ),
{
    let once = inserts(index, keys, values, n);
    let twice = inserts(once, keys, values, n);
    assert forall|x: u128| #[trigger] twice.dom().contains(x) == once.dom().contains(x) by {
        lemma_inserts(index, keys, values, n, x);
        lemma_inserts(once, keys, values, n, x);
    }
    assert(twice.dom() =~= once.dom());
    assert forall|x: u128| #[trigger] once.dom().contains(x) implies twice[x] == once[x] by {
        lemma_inserts(index, keys, values, n, x);
        lemma_inserts(once, keys, values, n, x);
    }
    assert(twice =~= once);
}

/// Adding arcs changes neither the identities nor the data index.
proof fn lemma_add_arcs_frame(b: Building, arcs: ArcsModel, n: nat)
    ensures
        add_arcs_model(b, arcs, n).graph.identities == b.graph.identities,
        add_arcs_model(b, arcs, n).graph.data_index == b.graph.data_index,
        add_arcs_model(b, arcs, n).graph.functions == b.graph.functions,
        add_arcs_model(b, arcs, n).graph.version == b.graph.version,
    decreases n,
{
    if n > 0 {
        lemma_add_arcs_frame(b, arcs, (n - 1) as nat);
    }
}

proof fn lemma_add_all_arcs_frame(b: Building, arcs: Seq<ArcsModel>, n: nat)
    ensures
        add_all_arcs_model(b, arcs, n).graph.identities == b.graph.identities,
        add_all_arcs_model(b, arcs, n).graph.data_index == b.graph.data_index,
        add_all_arcs_model(b, arcs, n).graph.functions == b.graph.functions,
        add_all_arcs_model(b, arcs, n).graph.version == b.graph.version,
    decreases n,
{
    if n > 0 {
        lemma_add_all_arcs_frame(b, arcs, (n - 1) as nat);
        lemma_add_arcs_frame(
            add_all_arcs_model(b, arcs, (n - 1) as nat),
            arcs[n - 1],
            arcs[n - 1].arcs.len(),
        );
    }
}

/// A new function is known by its identity, at the position after the functions before it.
pub proof fn lemma_add_function_identities(m: GraphModel, id: IdentityModel)
    ensures
        add_function_model(m, id).identities == m.identities.push(id),
        add_function_model(m, id).functions.len() == m.functions.len() + 1,
        add_function_model(m, id).data_index == m.data_index,
        add_function_model(m, id).version == m.version,
{
    let with_blocks = add_blocks_model(m, id.function.source, id.blocks);
    lemma_add_all_arcs_frame(with_blocks, id.arcs, id.arcs.len());
}

/// The position that a function of a note file gets, or has, in the graph.
pub open spec fn position_in(m: GraphModel, p: Pending) -> usize {
    if m.identities.contains(p.identity) {
        m.identities.index_of(p.identity) as usize
    } else {
        m.functions.len() as usize
    }
}

/// Whether the identities of `m` stand at the head of the identities of `end`.
spec fn identities_grow(m: GraphModel, end: GraphModel) -> bool {
    &&& m.identities.len() <= end.identities.len()
    &&& forall|i: int| 0 <= i < m.identities.len() ==> m.identities[i] == end.identities[i]
}

proof fn lemma_merge_function_grows(m: GraphModel, stamp: u32, p: Pending)
    requires
        m.identities.no_duplicates(),
        m.identities.len() == m.functions.len(),
        m.functions.len() < usize::MAX,
    ensures
        merge_function_model(m, stamp, p).functions.len() <= m.functions.len() + 1,
        identities_grow(m, merge_function_model(m, stamp, p)),
        merge_function_model(m, stamp, p).identities.no_duplicates(),
        merge_function_model(m, stamp, p).identities.len() == merge_function_model(
            m,
            stamp,
            p,
        ).functions.len(),
        merge_function_model(m, stamp, p).identities.contains(p.identity),
        merge_function_model(m, stamp, p).version == m.version,
        merge_function_model(m, stamp, p).identities[position_in(m, p) as int] == p.identity,
        merge_function_model(m, stamp, p).data_index == m.data_index.insert(
            data_key(stamp, p.ident, p.identity.function),
            position_in(m, p),
        ),
{
    let t = merge_function_model(m, stamp, p);
    if m.identities.contains(p.identity) {
        let i = m.identities.index_of(p.identity);
        assert(m.identities[i] == p.identity);
    } else {
        lemma_add_function_identities(m, p.identity);
        assert(t.identities == m.identities.push(p.identity));
        assert(t.identities[m.identities.len() as int] == p.identity);
        assert forall|a: int, b: int|
            0 <= a < t.identities.len() && 0 <= b < t.identities.len() && a != b implies t.identities[a]
            != t.identities[b] by {
            if a < m.identities.len() {
                assert(m.identities.contains(m.identities[a]));
            }
            if b < m.identities.len() {
                assert(m.identities.contains(m.identities[b]));
            }
        }
    }
}

/// The keys under which the functions of a note file are entered in the data index.
pub open spec fn pending_keys(stamp: u32, pending: Seq<Pending>) -> Seq<u128> {
    Seq::new(
        pending.len(),
        |i: int| data_key(stamp, pending[i].ident, pending[i].identity.function),
    )
}

/// The positions of the functions of a note file in a graph that knows them.
pub open spec fn pending_positions(end: GraphModel, pending: Seq<Pending>) -> Seq<usize> {
    Seq::new(pending.len(), |i: int| end.identities.index_of(pending[i].identity) as usize)
}

/// What merging the first `n` functions of a note file comes to, seen from the graph that
/// merging all of them gives.
proof fn lemma_first_merge(m: GraphModel, stamp: u32, pending: Seq<Pending>, n: nat, total: nat)
    requires
        m.identities.no_duplicates(),
        m.identities.len() == m.functions.len(),
        m.functions.len() + pending.len() <= usize::MAX,
        n <= total <= pending.len(),
    ensures
        ({
            let s = merge_functions_model(m, stamp, pending, n);
            let end = merge_functions_model(m, stamp, pending, total);
            &&& s.identities.no_duplicates()
            &&& s.identities.len() == s.functions.len()
            &&& s.version == m.version
            &&& identities_grow(s, end)
            &&& end.identities.no_duplicates()
            &&& forall|j: int| 0 <= j < n ==> s.identities.contains((#[trigger] pending[j]).identity)
            &&& s.data_index == inserts(
                m.data_index,
                pending_keys(stamp, pending),
                pending_positions(end, pending),
                n,
            )
        }),
    decreases total - n, n,
{
    let end = merge_functions_model(m, stamp, pending, total);
    if n == total {
        lemma_merge_shape(m, stamp, pending, total);
        lemma_first_merge_data(m, stamp, pending, n, end);
    } else {
        lemma_first_merge(m, stamp, pending, (n + 1) as nat, total);
        lemma_merge_shape(m, stamp, pending, n);
        let s = merge_functions_model(m, stamp, pending, n);
        let t = merge_functions_model(m, stamp, pending, (n + 1) as nat);
        lemma_merge_function_grows(s, stamp, pending[n as int]);
        assert(identities_grow(s, end)) by {
            assert forall|i: int| 0 <= i < s.identities.len() implies s.identities[i]
                == end.identities[i] by {
                assert(s.identities[i] == t.identities[i]);
            }
        }
        lemma_first_merge_data(m, stamp, pending, n, end);
    }
}

/// Merging functions keeps the identities apart, and as many as the functions.
proof fn lemma_merge_shape(m: GraphModel, stamp: u32, pending: Seq<Pending>, n: nat)
    requires
        m.identities.no_duplicates(),
        m.identities.len() == m.functions.len(),
        m.functions.len() + pending.len() <= usize::MAX,
        n <= pending.len(),
    ensures
        merge_functions_model(m, stamp, pending, n).functions.len() <= m.functions.len() + n,
        merge_functions_model(m, stamp, pending, n).identities.no_duplicates(),
        merge_functions_model(m, stamp, pending, n).identities.len() == merge_functions_model(
            m,
            stamp,
            pending,
            n,
        ).functions.len(),
        merge_functions_model(m, stamp, pending, n).version == m.version,
        identities_grow(m, merge_functions_model(m, stamp, pending, n)),
        forall|j: int|
            0 <= j < n ==> merge_functions_model(m, stamp, pending, n).identities.contains(
                (#[trigger] pending[j]).identity,
            ),
    decreases n,
{
    if n > 0 {
        lemma_merge_shape(m, stamp, pending, (n - 1) as nat);
        let s = merge_functions_model(m, stamp, pending, (n - 1) as nat);
        let t = merge_functions_model(m, stamp, pending, n);
        lemma_merge_function_grows(s, stamp, pending[n - 1]);
        assert forall|j: int| 0 <= j < n implies t.identities.contains(
            (#[trigger] pending[j]).identity,
        ) by {
            if j < n - 1 {
                let i = s.identities.index_of(pending[j].identity);
                assert(s.identities.contains(pending[j].identity));
                assert(s.identities[i] == pending[j].identity);
                assert(t.identities[i] == pending[j].identity);
            }
        }
        assert forall|i: int| 0 <= i < m.identities.len() implies m.identities[i]
            == t.identities[i] by {
            assert(m.identities[i] == s.identities[i]);
        }
    }
}

proof fn lemma_first_merge_data(
    m: GraphModel,
    stamp: u32,
    pending: Seq<Pending>,
    n: nat,
    end: GraphModel,
)
    requires
        m.identities.no_duplicates(),
        m.identities.len() == m.functions.len(),
        m.functions.len() + pending.len() <= usize::MAX,
        n <= pending.len(),
        end.identities.no_duplicates(),
        identities_grow(merge_functions_model(m, stamp, pending, n), end),
    ensures
        merge_functions_model(m, stamp, pending, n).data_index == inserts(
            m.data_index,
            pending_keys(stamp, pending),
            pending_positions(end, pending),
            n,
        ),
    decreases n,
{
    if n > 0 {
        let s = merge_functions_model(m, stamp, pending, (n - 1) as nat);
        let t = merge_functions_model(m, stamp, pending, n);
        lemma_merge_shape(m, stamp, pending, (n - 1) as nat);
        lemma_merge_function_grows(s, stamp, pending[n - 1]);
        assert(identities_grow(s, end)) by {
            assert forall|i: int| 0 <= i < s.identities.len() implies s.identities[i]
                == end.identities[i] by {
                assert(s.identities[i] == t.identities[i]);
            }
        }
        lemma_first_merge_data(m, stamp, pending, (n - 1) as nat, end);
        let p = pending[n - 1];
        let position = position_in(s, p);
        assert(t.identities[position as int] == p.identity);
        assert(end.identities[position as int] == p.identity);
        assert(end.identities.contains(p.identity));
        let j = end.identities.index_of(p.identity);
        assert(end.identities[j] == p.identity);
        assert(j == position);
        assert(pending_keys(stamp, pending)[n - 1] == data_key(stamp, p.ident, p.identity.function));
        assert(pending_positions(end, pending)[n - 1] == position);
    }
}

/// What merging the first `n` functions of a note file into a graph that knows them all
/// comes to: they are entered in the data index again.
proof fn lemma_second_merge(end: GraphModel, stamp: u32, pending: Seq<Pending>, n: nat)
    requires
        n <= pending.len(),
        forall|j: int|
            0 <= j < pending.len() ==> end.identities.contains((#[trigger] pending[j]).identity),
    ensures
        merge_functions_model(end, stamp, pending, n) == (GraphModel {
            data_index: inserts(
                end.data_index,
                pending_keys(stamp, pending),
                pending_positions(end, pending),
                n,
            ),
            ..end
        }),
    decreases n,
{
    if n > 0 {
        lemma_second_merge(end, stamp, pending, (n - 1) as nat);
        let s = merge_functions_model(end, stamp, pending, (n - 1) as nat);
        assert(s.identities == end.identities);
        assert(s.identities.contains(pending[n - 1].identity));
    }
}

/// A note file announces no more functions than it has records.
proof fn lemma_collect_len(records: Seq<Record>, n: nat)
    requires
        n <= records.len(),
    ensures
        collect(records, n) is Some ==> collect(records, n)->0.len() <= n,
    decreases n,
{
    if n > 0 {
        lemma_collect_len(records, (n - 1) as nat);
    }
}

/// Merging the same note file twice gives the graph that merging it once gives.
pub proof fn lemma_merge_notes_twice(
    m: GraphModel,
    version: Version,
    stamp: u32,
    records: Seq<Record>,
)
    requires
        model_wf(m),
        m.functions.len() + records.len() <= usize::MAX,
    ensures
        merge_model(
            merge_model(m, Type::Gcno, version, stamp, records),
            Type::Gcno,
            version,
            stamp,
            records,
        ) == merge_model(m, Type::Gcno, version, stamp, records),
{
    if version_accepted(m, version) {
        let adopted = GraphModel { version, ..m };
        match collect(records, records.len()) {
            None => {},
            Some(pending) => {
                let n = pending.len();
                lemma_collect_len(records, records.len());
                let end = merge_functions_model(adopted, stamp, pending, n);
                lemma_first_merge(adopted, stamp, pending, n, n);
                assert(end.version == version);
                assert(end == GraphModel { version, ..end });
                lemma_second_merge(end, stamp, pending, n);
                lemma_inserts_twice(
                    adopted.data_index,
                    pending_keys(stamp, pending),
                    pending_positions(end, pending),
                    n,
                );
            },
        }
    }
}

/// What adding counters does to one arc: the arc that `ids` names at the place `k` gets
/// the counter at that place, and an arc that `ids` does not name keeps its count.
proof fn lemma_add_counts(arcs: Seq<ArcInfo>, ids: Seq<usize>, counts: Seq<u64>, n: nat)
    requires
        ids.no_duplicates(),
        n <= ids.len(),
        n <= counts.len(),
        forall|k: int| 0 <= k < ids.len() ==> (#[trigger] ids[k]) < arcs.len(),
    ensures
        add_counts_model(arcs, ids, counts, n).len() == arcs.len(),
        forall|k: int|
            0 <= k < n ==> (#[trigger] add_counts_model(arcs, ids, counts, n)[ids[k] as int])
                == (ArcInfo {
                count: bump(arcs[ids[k] as int].count, counts[k]),
                ..arcs[ids[k] as int]
            }),
        forall|e: int|
            0 <= e < arcs.len() && (forall|k: int| 0 <= k < n ==> (#[trigger] ids[k]) != e)
                ==> add_counts_model(arcs, ids, counts, n)[e] == arcs[e],
    decreases n,
{
    if n > 0 {
        lemma_add_counts(arcs, ids, counts, (n - 1) as nat);
        let before = add_counts_model(arcs, ids, counts, (n - 1) as nat);
        let after = add_counts_model(arcs, ids, counts, n);
        let e0 = ids[n - 1] as int;
        assert(forall|k: int| 0 <= k < n - 1 ==> (#[trigger] ids[k]) != e0);
        assert(before[e0] == arcs[e0]);
        assert forall|k: int| 0 <= k < n implies (#[trigger] after[ids[k] as int]) == (ArcInfo {
            count: bump(arcs[ids[k] as int].count, counts[k]),
            ..arcs[ids[k] as int]
        }) by {
            if k < n - 1 {
                assert(ids[k] != ids[n - 1]);
                assert(after[ids[k] as int] == before[ids[k] as int]);
            }
        }
        assert forall|e: int|
            0 <= e < arcs.len() && (forall|k: int|
                0 <= k < n ==> (#[trigger] ids[k]) != e) implies after[e] == arcs[e] by {
            assert(ids[n - 1] != e);
            assert(forall|k: int| 0 <= k < n - 1 ==> (#[trigger] ids[k]) != e);
        }
    }
}

/// The counters of two functions add up to the same counts in either order.
proof fn lemma_add_counts_commute(
    arcs: Seq<ArcInfo>,
    ids1: Seq<usize>,
    first: Seq<u64>,
    ids2: Seq<usize>,
    second: Seq<u64>,
)
    requires
        ids1.no_duplicates(),
        ids2.no_duplicates(),
        first.len() == ids1.len(),
        second.len() == ids2.len(),
        forall|k: int| 0 <= k < ids1.len() ==> (#[trigger] ids1[k]) < arcs.len(),
        forall|k: int| 0 <= k < ids2.len() ==> (#[trigger] ids2[k]) < arcs.len(),
    ensures
        add_counts_model(add_counts_model(arcs, ids1, first, ids1.len()), ids2, second, ids2.len())
            == add_counts_model(
            add_counts_model(arcs, ids2, second, ids2.len()),
            ids1,
            first,
            ids1.len(),
        ),
        add_counts_model(arcs, ids1, first, ids1.len()).len() == arcs.len(),
{
    let n1 = ids1.len();
    let n2 = ids2.len();
    let a1 = add_counts_model(arcs, ids1, first, n1);
    let a2 = add_counts_model(arcs, ids2, second, n2);
    let a12 = add_counts_model(a1, ids2, second, n2);
    let a21 = add_counts_model(a2, ids1, first, n1);
    lemma_add_counts(arcs, ids1, first, n1);
    lemma_add_counts(arcs, ids2, second, n2);
    lemma_add_counts(a1, ids2, second, n2);
    lemma_add_counts(a2, ids1, first, n1);
    assert forall|e: int| 0 <= e < arcs.len() implies a12[e] == a21[e] by {
        let in1 = exists|k: int| 0 <= k < n1 && (#[trigger] ids1[k]) == e;
        let in2 = exists|k: int| 0 <= k < n2 && (#[trigger] ids2[k]) == e;
        if in1 {
            let k1 = choose|k: int| 0 <= k < n1 && (#[trigger] ids1[k]) == e;
            assert(a1[ids1[k1] as int].count == bump(arcs[e].count, first[k1]));
            assert(a21[ids1[k1] as int].count == bump(a2[e].count, first[k1]));
        } else {
            assert(forall|k: int| 0 <= k < n1 ==> (#[trigger] ids1[k]) != e);
            assert(a1[e] == arcs[e]);
            assert(a21[e] == a2[e]);
        }
        if in2 {
            let k2 = choose|k: int| 0 <= k < n2 && (#[trigger] ids2[k]) == e;
            assert(a2[ids2[k2] as int].count == bump(arcs[e].count, second[k2]));
            assert(a12[ids2[k2] as int].count == bump(a1[e].count, second[k2]));
        } else {
            assert(forall|k: int| 0 <= k < n2 ==> (#[trigger] ids2[k]) != e);
            assert(a2[e] == arcs[e]);
            assert(a12[e] == a1[e]);
        }
    }
    assert(a12 =~= a21);
}

/// The graph with other arcs.
spec fn with_arcs(m: GraphModel, arcs: Seq<ArcInfo>) -> GraphModel {
    GraphModel { arcs, ..m }
}

/// Whether the graph is `m` but for the counts of its arcs.
spec fn recounted(m: GraphModel, x: GraphModel) -> bool {
    x == with_arcs(m, x.arcs) && x.arcs.len() == m.arcs.len()
}

/// Merging a data file goes the same way whatever the counts of the arcs are: it finds
/// the same functions and fails at the same record, and changes the counts alone.
proof fn lemma_data_merge_ignores_counts(
    m: GraphModel,
    x: GraphModel,
    stamp: u32,
    records: Seq<Record>,
    n: nat,
)
    requires
        model_wf(m),
        recounted(m, x),
        counts_follow_function(records),
        n <= records.len(),
    ensures
        ({
            let s = merge_data_model(m, stamp, records, n);
            let t = merge_data_model(x, stamp, records, n);
            &&& t.current == s.current
            &&& t.failure == s.failure
            &&& recounted(m, t.graph)
            &&& recounted(m, s.graph)
            &&& s.current is Some ==> s.current->0 < m.functions.len()
            &&& s.failure is None && (exists|j: int| 0 <= j < n && (#[trigger] records[j]) is Function)
                ==> s.current is Some
        }),
    decreases n,
{
    if n > 0 {
        lemma_data_merge_ignores_counts(m, x, stamp, records, (n - 1) as nat);
        let s0 = merge_data_model(m, stamp, records, (n - 1) as nat);
        let t0 = merge_data_model(x, stamp, records, (n - 1) as nat);
        let r = records[n - 1];
        if s0.failure is None {
            match r {
                Record::Function(ident, function) => {
                    let key = data_key(stamp, ident, function);
                    assert(s0.graph.data_index == m.data_index);
                    assert(t0.graph.data_index == m.data_index);
                },
                Record::ArcCounts(counts) => {
                    assert(exists|j: int| 0 <= j < n - 1 && (#[trigger] records[j]) is Function);
                    let f = s0.current->0 as int;
                    let ids = m.functions[f].arcs;
                    assert(s0.graph.functions == m.functions);
                    assert(t0.graph.functions == m.functions);
                    if counts.counts@.len() == ids.len() {
                        lemma_add_counts(s0.graph.arcs, ids, counts.counts@, ids.len());
                        lemma_add_counts(t0.graph.arcs, ids, counts.counts@, ids.len());
                    }
                },
                _ => {},
            }
        }
        let s = merge_data_model(m, stamp, records, n);
        if s.failure is None && (exists|j: int| 0 <= j < n && (#[trigger] records[j]) is Function) {
            let j = choose|j: int| 0 <= j < n && (#[trigger] records[j]) is Function;
            if j < n - 1 {
                assert(exists|j: int| 0 <= j < n - 1 && (#[trigger] records[j]) is Function);
            }
        }
    }
}

/// Merging a data file after the counters of a function were added gives what adding the
/// counters after merging the file gives.
proof fn lemma_data_merge_after_counts(
    m: GraphModel,
    x: GraphModel,
    stamp: u32,
    records: Seq<Record>,
    n: nat,
    f: int,
    counts: Seq<u64>,
)
    requires
        model_wf(m),
        recounted(m, x),
        counts_follow_function(records),
        n <= records.len(),
        0 <= f < m.functions.len(),
        counts.len() == m.functions[f].arcs.len(),
    ensures
        merge_data_model(
            with_arcs(
                x,
                add_counts_model(x.arcs, m.functions[f].arcs, counts, m.functions[f].arcs.len()),
            ),
            stamp,
            records,
            n,
        ).graph.arcs == add_counts_model(
            merge_data_model(x, stamp, records, n).graph.arcs,
            m.functions[f].arcs,
            counts,
            m.functions[f].arcs.len(),
        ),
    decreases n,
{
    let ids = m.functions[f].arcs;
    let added = with_arcs(x, add_counts_model(x.arcs, ids, counts, ids.len()));
    lemma_add_counts(x.arcs, ids, counts, ids.len());
    assert(recounted(m, added));
    if n > 0 {
        lemma_data_merge_after_counts(m, x, stamp, records, (n - 1) as nat, f, counts);
        lemma_data_merge_ignores_counts(m, x, stamp, records, (n - 1) as nat);
        lemma_data_merge_ignores_counts(m, added, stamp, records, (n - 1) as nat);
        let s0 = merge_data_model(x, stamp, records, (n - 1) as nat);
        let t0 = merge_data_model(added, stamp, records, (n - 1) as nat);
        let r = records[n - 1];
        if s0.failure is None {
            match r {
                Record::ArcCounts(more) => {
                    assert(exists|j: int| 0 <= j < n - 1 && (#[trigger] records[j]) is Function);
                    let g = s0.current->0 as int;
                    let other = m.functions[g].arcs;
                    assert(s0.graph.functions == m.functions);
                    assert(t0.graph.functions == m.functions);
                    if more.counts@.len() == other.len() {
                        lemma_add_counts_commute(s0.graph.arcs, ids, counts, other, more.counts@);
                    }
                },
                Record::Function(ident, function) => {
                    assert(s0.graph.data_index == m.data_index);
                    assert(t0.graph.data_index == m.data_index);
                },
                _ => {},
            }
        }
    }
}

/// Two data files that can be merged into a graph give the same graph in either order.
pub proof fn lemma_data_merges_commute(
    m: GraphModel,
    first_stamp: u32,
    first: Seq<Record>,
    second_stamp: u32,
    second: Seq<Record>,
)
    requires
        model_wf(m),
        counts_follow_function(first),
        counts_follow_function(second),
        merge_data_model(m, first_stamp, first, first.len()).failure is None,
        merge_data_model(m, second_stamp, second, second.len()).failure is None,
    ensures
        merge_data_model(
            merge_data_model(m, first_stamp, first, first.len()).graph,
            second_stamp,
            second,
            second.len(),
        ).graph == merge_data_model(
            merge_data_model(m, second_stamp, second, second.len()).graph,
            first_stamp,
            first,
            first.len(),
        ).graph,
        merge_data_model(
            merge_data_model(m, first_stamp, first, first.len()).graph,
            second_stamp,
            second,
            second.len(),
        ).failure is None,
        merge_data_model(
            merge_data_model(m, second_stamp, second, second.len()).graph,
            first_stamp,
            first,
            first.len(),
        ).failure is None,
{
    let after_first = merge_data_model(m, first_stamp, first, first.len()).graph;
    let after_second = merge_data_model(m, second_stamp, second, second.len()).graph;
    lemma_data_merge_ignores_counts(m, m, first_stamp, first, first.len());
    lemma_data_merge_ignores_counts(m, m, second_stamp, second, second.len());
    lemma_data_merge_ignores_counts(m, after_first, second_stamp, second, second.len());
    lemma_data_merge_ignores_counts(m, after_second, first_stamp, first, first.len());
    lemma_second_after_first(m, first_stamp, first, second_stamp, second, second.len());
    let one = merge_data_model(after_first, second_stamp, second, second.len()).graph;
    let other = merge_data_model(after_second, first_stamp, first, first.len()).graph;
    assert(one.arcs == other.arcs);
    assert(one == with_arcs(m, one.arcs));
    assert(other == with_arcs(m, other.arcs));
}

/// The first `n` records of the second file, merged after the first file, give what the
/// first file gives when merged after them.
proof fn lemma_second_after_first(
    m: GraphModel,
    first_stamp: u32,
    first: Seq<Record>,
    second_stamp: u32,
    second: Seq<Record>,
    n: nat,
)
    requires
        model_wf(m),
        counts_follow_function(first),
        counts_follow_function(second),
        n <= second.len(),
        merge_data_model(m, second_stamp, second, n).failure is None,
    ensures
        merge_data_model(
            merge_data_model(m, first_stamp, first, first.len()).graph,
            second_stamp,
            second,
            n,
        ).graph.arcs == merge_data_model(
            merge_data_model(m, second_stamp, second, n).graph,
            first_stamp,
            first,
            first.len(),
        ).graph.arcs,
    decreases n,
{
    let after_first = merge_data_model(m, first_stamp, first, first.len()).graph;
    lemma_data_merge_ignores_counts(m, m, first_stamp, first, first.len());
    if n > 0 {
        let s0 = merge_data_model(m, second_stamp, second, (n - 1) as nat);
        let t0 = merge_data_model(after_first, second_stamp, second, (n - 1) as nat);
        assert(s0.failure is None);
        lemma_second_after_first(m, first_stamp, first, second_stamp, second, (n - 1) as nat);
        lemma_data_merge_ignores_counts(m, m, second_stamp, second, (n - 1) as nat);
        lemma_data_merge_ignores_counts(m, after_first, second_stamp, second, (n - 1) as nat);
        let r = second[n - 1];
        match r {
            Record::ArcCounts(counts) => {
                assert(exists|j: int| 0 <= j < n - 1 && (#[trigger] second[j]) is Function);
                let f = s0.current->0 as int;
                let ids = m.functions[f].arcs;
                assert(s0.graph.functions == m.functions);
                assert(t0.graph.functions == m.functions);
                assert(counts.counts@.len() == ids.len());
                lemma_data_merge_after_counts(
                    m,
                    s0.graph,
                    first_stamp,
                    first,
                    first.len(),
                    f,
                    counts.counts@,
                );
            },
            Record::Function(ident, function) => {
                assert(s0.graph.data_index == m.data_index);
                assert(t0.graph.data_index == m.data_index);
            },
            _ => {},
        }
    }
}

} // verus!
