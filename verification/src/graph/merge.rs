//! Merging note and data files into the graph.

use crate::error::{Error, ErrorKind, Location, Result};
use crate::model::{
    add_counts_model, bump, can_merge_model, collect, collect_step, data_key, data_step,
    failure_trail, lemma_views_push, merge_data_model, merge_failure, merge_function_model,
    merge_functions_model, merge_model, pending_arcs, pending_blocks, refused_record, total_arcs,
    valid_identity, version_accepted, views, ArcInfo, DataState, GraphModel, Pending, GRAPH_LIMIT,
};
use crate::raw::{
    ArcCounts, Arcs, Blocks, Function, Gcov, Ident, Lines, Record, Type, INVALID_VERSION,
};
use super::{
    copy_items, lemma_total_arcs_monotone, GcdaFunctionIdentity, GcnoFunctionIdentity, Graph,
};
use vstd::prelude::*;

verus! {

/// A function of a note file, as far as its records were read.
pub struct PendingFunction {
    pub ident: Ident,
    pub identity: GcnoFunctionIdentity,
}

impl View for PendingFunction {
    type V = Pending;

    open spec fn view(&self) -> Pending {
        Pending { ident: self.ident, identity: self.identity@ }
    }
}

/// Gathers what the records of a note file say of each function. A block, arc or line
/// list before the first function record is refused.
pub fn collect_functions(records: &Vec<Record>) -> (r: Result<Vec<PendingFunction>>)
    ensures
        match collect(records@, records@.len()) {
            Some(pending) => r is Ok && views(r->Ok_0@) == pending,
            None => r is Err && r->Err_0.kind == ErrorKind::RecordWithoutFunction && exists|i: int|
                refused_record(records@, i) && r->Err_0.trail@ == seq![
                    Location::RecordIndex(i as usize),
                ],
        },
{
    let mut pending: Vec<PendingFunction> = Vec::new();
    let mut i: usize = 0;
    proof {
        assert(views(pending@) =~= Seq::empty());
    }
    while i < records.len()
        invariant
            i <= records.len(),
            collect(records@, i as nat) == Some(views(pending@)),
        decreases records.len() - i,
    {
        let ghost before = views(pending@);
        let ghost last = pending@.len() - 1;
        let refused = match &records[i] {
            Record::Function(ident, function) => {
                let item = PendingFunction {
                    ident: *ident,
                    identity: GcnoFunctionIdentity::new(*function),
                };
                proof {
                    lemma_views_push(pending@, item);
                }
                pending.push(item);
                false
            },
            Record::Blocks(blocks) => {
                let n = pending.len();
                if n == 0 {
                    true
                } else {
                    pending[n - 1].identity.blocks = Blocks { flags: copy_items(&blocks.flags) };
                    proof {
                        assert(views(pending@) =~= collect_step(before, records@[i as int])->0);
                    }
                    false
                }
            },
            Record::Arcs(arcs) => {
                let n = pending.len();
                if n == 0 {
                    true
                } else {
                    let item = Arcs { src_block: arcs.src_block, arcs: copy_items(&arcs.arcs) };
                    proof {
                        lemma_views_push(pending@[last].identity.arcs@, item);
                    }
                    pending[n - 1].identity.arcs.push(item);
                    proof {
                        assert(views(pending@) =~= collect_step(before, records@[i as int])->0);
                    }
                    false
                }
            },
            Record::Lines(lines) => {
                let n = pending.len();
                if n == 0 {
                    true
                } else {
                    let item = Lines {
                        block_number: lines.block_number,
                        lines: copy_items(&lines.lines),
                    };
                    proof {
                        lemma_views_push(pending@[last].identity.lines@, item);
                    }
                    pending[n - 1].identity.lines.push(item);
                    proof {
                        assert(views(pending@) =~= collect_step(before, records@[i as int])->0);
                    }
                    false
                }
            },
            _ => false,
        };
        if refused {
            proof {
                assert(collect_step(before, records@[i as int]) is None);
                assert(collect(records@, (i + 1) as nat) is None);
                lemma_collect_stays_refused(records@, (i + 1) as nat, records@.len());
                assert(refused_record(records@, i as int));
            }
            return Err(
                Location::RecordIndex(i).wrap_error(Error::new(ErrorKind::RecordWithoutFunction)),
            );
        }
        i += 1;
    }
    Ok(pending)
}

/// Once a record is refused, the file stays refused.
pub proof fn lemma_collect_stays_refused(records: Seq<Record>, a: nat, b: nat)
    requires
        a <= b,
        collect(records, a) is None,
    ensures
        collect(records, b) is None,
    decreases b,
{
    if a < b {
        lemma_collect_stays_refused(records, a, (b - 1) as nat);
    }
}

impl Graph {
    /// The position of the function with the given identity, if the graph knows it.
    fn position_of(&self, id: &GcnoFunctionIdentity) -> (r: Option<usize>)
        requires
            self.wf(),
        ensures
            match r {
                Some(position) => self@.identities.contains(id@) && position
                    == self@.identities.index_of(id@),
                None => !self@.identities.contains(id@),
            },
    {
        let mut i: usize = 0;
        while i < self.gcno_index.len()
            invariant
                i <= self.gcno_index.len(),
                self.wf(),
                forall|j: int| 0 <= j < i ==> self@.identities[j] != id@,
            decreases self.gcno_index.len() - i,
        {
            if self.gcno_index[i].same(id) {
                proof {
                    let items = self@.identities;
                    assert(items[i as int] == id@);
                    let j = items.index_of(id@);
                    assert(items[j] == id@);
                }
                return Some(i);
            }
            i += 1;
        }
        None
    }

    /// Merges the functions of a note file with the given stamp into the graph.
    fn merge_pending(&mut self, stamp: u32, pending: Vec<PendingFunction>)
        requires
            old(self).wf(),
            forall|i: int|
                0 <= i < pending@.len() ==> valid_identity((#[trigger] views(pending@)[i]).identity),
            old(self)@.blocks.len() + pending_blocks(views(pending@), pending@.len())
                <= GRAPH_LIMIT,
            old(self)@.arcs.len() + pending_arcs(views(pending@), pending@.len()) <= GRAPH_LIMIT,
        ensures
            final(self).wf(),
            final(self)@ == merge_functions_model(
                old(self)@,
                stamp,
                views(pending@),
                pending@.len(),
            ),
    {
        let ghost all = views(pending@);
        let mut pending = pending;
        let mut i: usize = 0;
        while i < pending.len()
            invariant
                i <= pending.len(),
                pending@.len() == all.len(),
                self.wf(),
                forall|j: int| i <= j < pending@.len() ==> (#[trigger] pending@[j])@ == all[j],
                forall|j: int| 0 <= j < all.len() ==> valid_identity((#[trigger] all[j]).identity),
                self@.blocks.len() + pending_blocks(all, all.len()) - pending_blocks(all, i as nat)
                    <= GRAPH_LIMIT,
                self@.arcs.len() + pending_arcs(all, all.len()) - pending_arcs(all, i as nat)
                    <= GRAPH_LIMIT,
                self@ == merge_functions_model(old(self)@, stamp, all, i as nat),
            decreases pending.len() - i,
        {
            let mut item = PendingFunction {
                ident: Ident(0),
                identity: GcnoFunctionIdentity::new(
                    Function { lineno_checksum: 0, cfg_checksum: 0, source: None },
                ),
            };
            core::mem::swap(&mut pending[i], &mut item);
            proof {
                assert(item@ == all[i as int]);
                lemma_pending_monotone(all, (i + 1) as nat, all.len());
            }
            let key = GcdaFunctionIdentity::new(stamp, item.ident, &item.identity.function).key();
            let ghost before = self@;
            let position = match self.position_of(&item.identity) {
                Some(position) => position,
                None => self.add_function(item.identity),
            };
            let ghost added = self@;
            self.gcda_index.insert(key, position);
            i += 1;
            proof {
                let m = self@;
                assert(m.data_index == added.data_index.insert(key, position));
                assert(m == GraphModel { data_index: m.data_index, ..added });
                assert(m == merge_function_model(before, stamp, all[i - 1]));
                assert forall|k: u128| #[trigger] m.data_index.contains_key(k) implies m.data_index[k]
                    < m.functions.len() by {
                    if k != key {
                        assert(added.data_index.contains_key(k));
                    }
                }
            }
        }
    }

    /// Merges a parsed note file into the graph.
    fn merge_gcno(&mut self, gcno: &Gcov) -> (r: Result<()>)
        requires
            old(self).wf(),
            match collect(gcno.records@, gcno.records@.len()) {
                None => true,
                Some(pending) => {
                    &&& forall|i: int|
                        0 <= i < pending.len() ==> valid_identity((#[trigger] pending[i]).identity)
                    &&& old(self)@.blocks.len() + pending_blocks(pending, pending.len())
                        <= GRAPH_LIMIT
                    &&& old(self)@.arcs.len() + pending_arcs(pending, pending.len()) <= GRAPH_LIMIT
                },
            },
        ensures
            final(self).wf(),
            match collect(gcno.records@, gcno.records@.len()) {
                None => final(self)@ == old(self)@ && r is Err && r->Err_0.kind
                    == ErrorKind::RecordWithoutFunction && exists|i: int|
                    refused_record(gcno.records@, i) && r->Err_0.trail@ == seq![
                        Location::RecordIndex(i as usize),
                    ],
                Some(pending) => r is Ok && final(self)@ == merge_functions_model(
                    old(self)@,
                    gcno.stamp,
                    pending,
                    pending.len(),
                ),
            },
    {
        match collect_functions(&gcno.records) {
            Err(e) => Err(e),
            Ok(pending) => {
                self.merge_pending(gcno.stamp, pending);
                Ok(())
            },
        }
    }

    /// Finds the function that a function record of a data file means.
    fn find_function(&self, checksum: u32, ident: Ident, function: &Function) -> (r: Result<usize>)
        requires
            self.wf(),
        ensures
            match r {
                Ok(position) => self@.data_index.contains_key(data_key(checksum, ident, *function))
                    && position == self@.data_index[data_key(checksum, ident, *function)]
                    && position < self@.functions.len(),
                Err(e) => !self@.data_index.contains_key(data_key(checksum, ident, *function))
                    && e.kind == ErrorKind::MissingFunction(checksum, ident) && e.trail@.len() == 0,
            },
    {
        let key = GcdaFunctionIdentity::new(checksum, ident, function).key();
        match self.gcda_index.get(&key) {
            Some(position) => Ok(*position),
            None => Err(Error::new(ErrorKind::MissingFunction(checksum, ident))),
        }
    }

    /// Adds the counters of a data file to the arcs of the function at `index`.
    fn add_arc_counts(&mut self, index: usize, ac: &ArcCounts) -> (r: Result<()>)
        requires
            old(self).wf(),
            index < old(self)@.functions.len(),
        ensures
            final(self).wf(),
            ac.counts@.len() == old(self)@.functions[index as int].arcs.len() ==> r is Ok
                && final(self)@ == (GraphModel {
                arcs: add_counts_model(
                    old(self)@.arcs,
                    old(self)@.functions[index as int].arcs,
                    ac.counts@,
                    ac.counts@.len(),
                ),
                ..old(self)@
            }),
            ac.counts@.len() != old(self)@.functions[index as int].arcs.len() ==> r is Err
                && final(self)@ == old(self)@ && r->Err_0.kind == ErrorKind::CountsMismatch(
                "arcs",
                Type::Gcda,
                ac.counts@.len() as usize,
                old(self)@.functions[index as int].arcs.len() as usize,
            ) && r->Err_0.trail@.len() == 0,
    {
        let n = self.functions[index].arcs.len();
        if ac.counts.len() != n {
            return Err(
                Error::new(ErrorKind::CountsMismatch("arcs", Type::Gcda, ac.counts.len(), n)),
            );
        }
        let ghost ids = self@.functions[index as int].arcs;
        proof {
            assert(self.functions@[index as int]@.arcs == ids);
        }
        let mut k: usize = 0;
        while k < n
            invariant
                k <= n,
                n == ids.len(),
                n == ac.counts@.len(),
                index < self.functions@.len(),
                self.functions@[index as int].arcs@ == ids,
                forall|j: int| 0 <= j < ids.len() ==> (#[trigger] ids[j]) < self.arcs@.len(),
                self.arcs@.len() == old(self).arcs@.len(),
                self.version == old(self).version,
                self.functions == old(self).functions,
                self.gcno_index == old(self).gcno_index,
                self.gcda_index == old(self).gcda_index,
                self.blocks == old(self).blocks,
                self.graph == old(self).graph,
                self.arcs@ == add_counts_model(old(self).arcs@, ids, ac.counts@, k as nat),
            decreases n - k,
        {
            let e = self.functions[index].arcs[k];
            let more = ac.counts[k];
            let count = match self.arcs[e].count {
                None => more,
                Some(c) => c.wrapping_add(more),
            };
            let ghost before = self.arcs@;
            self.arcs[e].count = Some(count);
            k += 1;
            proof {
                assert(self.arcs@ =~= before.update(
                    e as int,
                    ArcInfo { count: bump(before[e as int].count, more), ..before[e as int] },
                ));
            }
        }
        proof {
            let m = self@;
            let o = old(self)@;
            assert(m == GraphModel { arcs: m.arcs, ..o });
            assert forall|f: int, j: int|
                0 <= f < m.functions.len() && 0 <= j < m.functions[f].arcs.len() implies (
            #[trigger] m.functions[f].arcs[j]) < m.arcs.len() by {
                assert(o.functions[f].arcs[j] < o.arcs.len());
            }
        }
        Ok(())
    }

    /// Merges a parsed data file into the graph.
    fn merge_gcda(&mut self, gcda: &Gcov) -> (r: Result<()>)
        requires
            old(self).wf(),
            forall|i: int|
                0 <= i < gcda.records@.len() && (#[trigger] gcda.records@[i]) is ArcCounts
                    ==> exists|j: int| 0 <= j < i && (#[trigger] gcda.records@[j]) is Function,
        ensures
            final(self).wf(),
            final(self)@ == merge_data_model(
                old(self)@,
                gcda.stamp,
                gcda.records@,
                gcda.records@.len(),
            ).graph,
            match merge_data_model(
                old(self)@,
                gcda.stamp,
                gcda.records@,
                gcda.records@.len(),
            ).failure {
                None => r is Ok,
                Some((kind, index)) => r is Err && r->Err_0.kind == kind && r->Err_0.trail@ == (
                if kind is MissingFunction {
                    seq![Location::RecordIndex(index as usize)]
                } else {
                    Seq::<Location>::empty()
                }),
            },
    {
        let ghost records = gcda.records@;
        let mut current: Option<usize> = None;
        let mut i: usize = 0;
        while i < gcda.records.len()
            invariant
                i <= gcda.records.len(),
                records == gcda.records@,
                self.wf(),
                forall|k: int|
                    0 <= k < records.len() && (#[trigger] records[k]) is ArcCounts ==> exists|
                        j: int,
                    | 0 <= j < k && (#[trigger] records[j]) is Function,
                current is Some ==> current->0 < self@.functions.len(),
                (exists|j: int| 0 <= j < i && (#[trigger] records[j]) is Function)
                    ==> current is Some,
                merge_data_model(old(self)@, gcda.stamp, records, i as nat) == (DataState {
                    graph: self@,
                    current,
                    failure: None,
                }),
            decreases gcda.records.len() - i,
        {
            let ghost before = DataState { graph: self@, current, failure: None };
            match &gcda.records[i] {
                Record::Function(ident, function) => {
                    match self.find_function(gcda.stamp, *ident, function) {
                        Ok(position) => {
                            current = Some(position);
                        },
                        Err(e) => {
                            proof {
                                let failed = data_step(
                                    before,
                                    gcda.stamp,
                                    records[i as int],
                                    i as nat,
                                );
                                assert(merge_data_model(
                                    old(self)@,
                                    gcda.stamp,
                                    records,
                                    (i + 1) as nat,
                                ) == failed);
                                lemma_data_stays_failed(
                                    old(self)@,
                                    gcda.stamp,
                                    records,
                                    (i + 1) as nat,
                                    records.len(),
                                );
                            }
                            return Err(Location::RecordIndex(i).wrap_error(e));
                        },
                    }
                },
                Record::ArcCounts(ac) => {
                    proof {
                        assert(records[i as int] is ArcCounts);
                    }
                    let index = match current {
                        Some(index) => index,
                        None => 0,
                    };
                    match self.add_arc_counts(index, ac) {
                        Ok(()) => {},
                        Err(e) => {
                            proof {
                                let failed = data_step(
                                    before,
                                    gcda.stamp,
                                    records[i as int],
                                    i as nat,
                                );
                                assert(merge_data_model(
                                    old(self)@,
                                    gcda.stamp,
                                    records,
                                    (i + 1) as nat,
                                ) == failed);
                                lemma_data_stays_failed(
                                    old(self)@,
                                    gcda.stamp,
                                    records,
                                    (i + 1) as nat,
                                    records.len(),
                                );
                            }
                            return Err(e);
                        },
                    }
                },
                _ => {},
            }
            proof {
                assert(merge_data_model(old(self)@, gcda.stamp, records, (i + 1) as nat)
                    == data_step(before, gcda.stamp, records[i as int], i as nat));
            }
            i += 1;
        }
        Ok(())
    }
}

/// The counts of blocks and arcs grow with the number of functions counted.
proof fn lemma_pending_monotone(pending: Seq<Pending>, a: nat, b: nat)
    requires
        a <= b,
    ensures
        pending_blocks(pending, a) <= pending_blocks(pending, b),
        pending_arcs(pending, a) <= pending_arcs(pending, b),
    decreases b,
{
    if a < b {
        lemma_pending_monotone(pending, a, (b - 1) as nat);
    }
}

/// Once a record of a data file has failed, the records after it change nothing.
pub proof fn lemma_data_stays_failed(
    m: GraphModel,
    stamp: u32,
    records: Seq<Record>,
    a: nat,
    b: nat,
)
    requires
        a <= b,
        merge_data_model(m, stamp, records, a).failure is Some,
    ensures
        merge_data_model(m, stamp, records, b) == merge_data_model(m, stamp, records, a),
    decreases b,
{
    if a < b {
        lemma_data_stays_failed(m, stamp, records, a, (b - 1) as nat);
    }
}

/// Tells whether the arcs of the function join blocks of the function.
fn is_valid_identity(id: &GcnoFunctionIdentity) -> (r: bool)
    ensures
        r == valid_identity(id@),
{
    let n = id.blocks.flags.len();
    let mut j: usize = 0;
    while j < id.arcs.len()
        invariant
            j <= id.arcs.len(),
            n == id@.blocks.len(),
            forall|a: int|
                0 <= a < j ==> (#[trigger] id@.arcs[a]).src_block.0 < n && forall|k: int|
                    0 <= k < id@.arcs[a].arcs.len() ==> (#[trigger] id@.arcs[a].arcs[k]).dest_block.0
                        < n,
        decreases id.arcs.len() - j,
    {
        proof {
            assert(id@.arcs[j as int] == id.arcs@[j as int]@);
        }
        if id.arcs[j].src_block.0 as usize >= n {
            return false;
        }
        let mut k: usize = 0;
        while k < id.arcs[j].arcs.len()
            invariant
                j < id.arcs.len(),
                n == id@.blocks.len(),
                k <= id.arcs@[j as int].arcs@.len(),
                id@.arcs[j as int] == id.arcs@[j as int]@,
                forall|b: int|
                    0 <= b < k ==> (#[trigger] id@.arcs[j as int].arcs[b]).dest_block.0 < n,
            decreases id.arcs@[j as int].arcs@.len() - k,
        {
            if id.arcs[j].arcs[k].dest_block.0 as usize >= n {
                proof {
                    assert(id@.arcs[j as int].arcs[k as int].dest_block.0 >= n);
                }
                return false;
            }
            k += 1;
        }
        j += 1;
    }
    true
}

impl Graph {
    /// Tells whether [`Graph::merge`] can take the file.
    #[verifier::loop_isolation(false)]
    pub fn can_merge(&self, gcov: &Gcov) -> (r: bool)
        requires
            self.wf(),
        ensures
            r == can_merge_model(self@, gcov.ty, gcov.version, gcov.records@),
    {
        if !(self.version.0 == INVALID_VERSION || self.version.0 == gcov.version.0) {
            return true;
        }
        match gcov.ty {
            Type::Gcno => {
                match collect_functions(&gcov.records) {
                    Err(_) => true,
                    Ok(pending) => {
                        let ghost all = views(pending@);
                        let mut blocks: usize = self.blocks.len();
                        let mut arcs: usize = self.arcs.len();
                        let mut i: usize = 0;
                        while i < pending.len()
                            invariant
                                i <= pending.len(),
                                all == views(pending@),
                                forall|j: int|
                                    0 <= j < i ==> valid_identity((#[trigger] all[j]).identity),
                                blocks == self@.blocks.len() + pending_blocks(all, i as nat),
                                arcs == self@.arcs.len() + pending_arcs(all, i as nat),
                                blocks <= GRAPH_LIMIT,
                                arcs <= GRAPH_LIMIT,
                            decreases pending.len() - i,
                        {
                            proof {
                                assert(all[i as int] == pending@[i as int]@);
                                lemma_pending_monotone(all, (i + 1) as nat, all.len());
                            }
                            if !is_valid_identity(&pending[i].identity) {
                                proof {
                                    assert(!valid_identity(all[i as int].identity));
                                }
                                return false;
                            }
                            let n = pending[i].identity.blocks.flags.len();
                            if n > GRAPH_LIMIT - blocks {
                                return false;
                            }
                            blocks += n;
                            let ghost lists = all[i as int].identity.arcs;
                            let mut j: usize = 0;
                            let ghost start = arcs;
                            while j < pending[i].identity.arcs.len()
                                invariant
                                    i < pending.len(),
                                    all == views(pending@),
                                    all[i as int] == pending@[i as int]@,
                                    lists == all[i as int].identity.arcs,
                                    j <= lists.len(),
                                    arcs == start + total_arcs(lists, j as nat),
                                    start == self@.arcs.len() + pending_arcs(all, i as nat),
                                    arcs <= GRAPH_LIMIT,
                                decreases lists.len() - j,
                            {
                                proof {
                                    assert(lists[j as int] == pending@[i as int].identity.arcs@[j as int]@);
                                    lemma_total_arcs_monotone(lists, (j + 1) as nat, lists.len());
                                }
                                let n = pending[i].identity.arcs[j].arcs.len();
                                if n > GRAPH_LIMIT - arcs {
                                    return false;
                                }
                                arcs += n;
                                j += 1;
                            }
                            i += 1;
                        }
                        true
                    },
                }
            },
            Type::Gcda => {
                let mut seen = false;
                let mut i: usize = 0;
                while i < gcov.records.len()
                    invariant
                        i <= gcov.records.len(),
                        seen <==> exists|j: int|
                            0 <= j < i && (#[trigger] gcov.records@[j]) is Function,
                        forall|k: int|
                            0 <= k < i && (#[trigger] gcov.records@[k]) is ArcCounts ==> exists|
                                j: int,
                            | 0 <= j < k && (#[trigger] gcov.records@[j]) is Function,
                    decreases gcov.records.len() - i,
                {
                    match &gcov.records[i] {
                        Record::Function(_, _) => {
                            seen = true;
                        },
                        Record::ArcCounts(_) => {
                            if !seen {
                                proof {
                                    assert(gcov.records@[i as int] is ArcCounts);
                                }
                                return false;
                            }
                        },
                        _ => {},
                    }
                    i += 1;
                }
                true
            },
        }
    }

    /// Merges the file after its version was accepted.
    fn merge_records(&mut self, gcov: &Gcov) -> (r: Result<()>)
        requires
            old(self).wf(),
            version_accepted(old(self)@, gcov.version),
            can_merge_model(old(self)@, gcov.ty, gcov.version, gcov.records@),
        ensures
            final(self).wf(),
            final(self)@ == merge_model(
                old(self)@,
                gcov.ty,
                gcov.version,
                gcov.stamp,
                gcov.records@,
            ),
            match merge_failure(old(self)@, gcov.ty, gcov.version, gcov.stamp, gcov.records@) {
                None => r is Ok,
                Some((kind, at)) => r is Err && r->Err_0.kind == kind && r->Err_0.trail@
                    == failure_trail(at, None),
            },
    {
        self.version = gcov.version;
        proof {
            assert(self@ == GraphModel { version: gcov.version, ..old(self)@ });
            assert(self.wf());
        }
        match gcov.ty {
            Type::Gcno => {
                let r = self.merge_gcno(gcov);
                proof {
                    if collect(gcov.records@, gcov.records@.len()) is None {
                        let i = choose|i: int|
                            refused_record(gcov.records@, i) && r->Err_0.trail@ == seq![
                                Location::RecordIndex(i as usize),
                            ];
                        let j = choose|j: int| refused_record(gcov.records@, j);
                        if i < j {
                            lemma_collect_stays_refused(gcov.records@, (i + 1) as nat, j as nat);
                        }
                        if j < i {
                            lemma_collect_stays_refused(gcov.records@, (j + 1) as nat, i as nat);
                        }
                    }
                }
                r
            },
            Type::Gcda => self.merge_gcda(gcov),
        }
    }

    /// Merges a parsed note or data file into the graph.
    ///
    /// The first file gives the graph its version, and every later file must have the
    /// same. The functions of a note file that the graph does not know are added; the
    /// counters of a data file are added to the arcs of the functions they belong to.
    pub fn merge(&mut self, gcov: Gcov) -> (r: Result<()>)
        requires
            old(self).wf(),
            can_merge_model(old(self)@, gcov.ty, gcov.version, gcov.records@),
        ensures
            final(self).wf(),
            final(self)@ == merge_model(
                old(self)@,
                gcov.ty,
                gcov.version,
                gcov.stamp,
                gcov.records@,
            ),
            match merge_failure(old(self)@, gcov.ty, gcov.version, gcov.stamp, gcov.records@) {
                None => r is Ok,
                Some((kind, at)) => r is Err && r->Err_0.kind == kind && r->Err_0.trail@
                    == failure_trail(at, gcov.src),
            },
    {
        let result = if self.version.0 == INVALID_VERSION || self.version.0 == gcov.version.0 {
            self.merge_records(&gcov)
        } else {
            Err(Error::new(ErrorKind::VersionMismatch(self.version, gcov.version)))
        };
        match result {
            Ok(()) => Ok(()),
            Err(e) => {
                let location = match gcov.src {
                    Some(path) => Location::File(path),
                    None => Location::Nowhere,
                };
                Err(location.wrap_error(e))
            },
        }
    }
}

} // verus!
