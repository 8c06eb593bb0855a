//! Reading the coverage report off the graph.

use crate::counts::{analyzable, exit_position};
use crate::intern::Symbol;
use crate::projection::{
    arcs_from, arcs_into, arcs_tally, block_branches, branch_of, count_or_zero, degree_sum,
    executed_blocks, exit_of, extend_line, fake_total, file_of, function_file, function_record,
    function_summary, is_executed, lemma_arcs_tally_bounds, lemma_degree_monotone, lemma_degree_sum,
    lemma_tally_bounds, line_pairs, nodes_tally, report_block, report_blocks, report_functions,
    report_model, touch, touch_pairs,
};
use crate::raw::{Function, ARC_ATTR_CALL_NON_RETURN, ARC_ATTR_FAKE, ARC_ATTR_UNCONDITIONAL};
use crate::report::{
    extend_lines, lines_sorted, report_sorted, touch_lines, Branch, FileModel, FunctionSummary,
    Report,
};
use crate::topology::topology_endpoints;
use super::Graph;
use vstd::prelude::*;

verus! {

impl Graph {
    /// The summary of the function at position `f`.
    fn summarize_function(&self, f: usize) -> (summary: FunctionSummary)
        requires
            self.wf(),
            self.analyzable(),
            f < self@.functions.len(),
        ensures
            summary == function_summary(self@, f as int),
    {
        let ghost m = self@;
        let ghost nodes = m.functions[f as int].nodes;
        proof {
            assert(m.functions[f as int] == self.functions@[f as int]@);
            lemma_degree_sum(m.edges, nodes, nodes.len(), m.edges.len());
        }
        let blocks_count = self.functions[f].nodes.len();
        let mut blocks_executed: usize = 0;
        let mut tally: (usize, usize, usize) = (0, 0, 0);
        let mut i: usize = 0;
        while i < blocks_count
            invariant
                i <= blocks_count,
                self.wf(),
                m == self@,
                f < m.functions.len(),
                nodes == m.functions[f as int].nodes,
                nodes == self.functions@[f as int].nodes@,
                blocks_count == nodes.len(),
                degree_sum(m.edges, nodes, nodes.len(), m.edges.len()) <= m.edges.len(),
                blocks_executed == executed_blocks(m, nodes, i as nat),
                tally.0 == nodes_tally(m, nodes, i as nat).0,
                tally.1 == nodes_tally(m, nodes, i as nat).1,
                tally.2 == nodes_tally(m, nodes, i as nat).2,
            decreases blocks_count - i,
        {
            let node = self.functions[f].nodes[i];
            proof {
                assert(nodes[i as int] < m.blocks.len());
                assert(m.blocks[node as int] == self.blocks@[node as int]@);
                lemma_tally_bounds(m, nodes, (i + 1) as nat);
                lemma_tally_bounds(m, nodes, i as nat);
                lemma_degree_monotone(m.edges, nodes, (i + 1) as nat, nodes.len(), m.edges.len());
            }
            let executed = match self.blocks[node].count {
                Some(count) => count > 0,
                None => false,
            };
            if executed {
                blocks_executed += 1;
            }
            let list = self.arcs_of(node, true);
            let ghost arcs = arcs_from(m, node as int);
            let mut here: (usize, usize, usize) = (0, 0, 0);
            let mut k: usize = 0;
            while k < list.len()
                invariant
                    k <= list.len(),
                    m == self@,
                    node < m.blocks.len(),
                    executed == is_executed(m.blocks[node as int].count),
                    arcs == arcs_from(m, node as int),
                    list@.len() == arcs.len(),
                    forall|j: int| 0 <= j < list@.len() ==> (#[trigger] list@[j]).0 == arcs[j],
                    forall|j: int| 0 <= j < list@.len() ==> (#[trigger] list@[j]).0 < m.arcs.len(),
                    here.0 == arcs_tally(m, node as int, arcs, k as nat).0,
                    here.1 == arcs_tally(m, node as int, arcs, k as nat).1,
                    here.2 == arcs_tally(m, node as int, arcs, k as nat).2,
                decreases list.len() - k,
            {
                let arc = self.arcs[list[k].0];
                proof {
                    lemma_arcs_tally_bounds(m, node as int, arcs, (k + 1) as nat);
                    lemma_arcs_tally_bounds(m, node as int, arcs, k as nat);
                    assert(ARC_ATTR_UNCONDITIONAL | ARC_ATTR_FAKE == 0x82) by (bit_vector);
                }
                if !arc.attr.intersects(ARC_ATTR_UNCONDITIONAL | ARC_ATTR_FAKE) {
                    let taken = match arc.count {
                        Some(count) => count > 0,
                        None => false,
                    };
                    here = crate::utils::tuple_3_add(
                        here,
                        (
                            1,
                            if executed {
                                1
                            } else {
                                0
                            },
                            if taken {
                                1
                            } else {
                                0
                            },
                        ),
                    );
                }
                k += 1;
            }
            proof {
                lemma_arcs_tally_bounds(m, node as int, arcs, arcs.len());
            }
            tally = crate::utils::tuple_3_add(tally, here);
            i += 1;
        }
        let entry = self.functions[f].entry_block();
        let exit = self.functions[f].exit_block(self.version);
        proof {
            assert(nodes[0] < m.blocks.len());
            assert(nodes[exit_position(m, f as int)] < m.blocks.len());
            assert(m.blocks[entry as int] == self.blocks@[entry as int]@);
            assert(m.blocks[exit as int] == self.blocks@[exit as int]@);
        }
        let entry_count = match self.blocks[entry].count {
            Some(count) => count,
            None => 0,
        };
        let exit_block_count = match self.blocks[exit].count {
            Some(count) => count,
            None => 0,
        };
        let list = self.arcs_of(exit, false);
        let ghost arcs = arcs_into(m, exit as int);
        let mut fake: u64 = 0;
        let mut k: usize = 0;
        while k < list.len()
            invariant
                k <= list.len(),
                m == self@,
                arcs == arcs_into(m, exit as int),
                list@.len() == arcs.len(),
                forall|j: int| 0 <= j < list@.len() ==> (#[trigger] list@[j]).0 == arcs[j],
                forall|j: int| 0 <= j < list@.len() ==> (#[trigger] list@[j]).0 < m.arcs.len(),
                fake == fake_total(m, arcs, k as nat),
            decreases list.len() - k,
        {
            let arc = self.arcs[list[k].0];
            if arc.attr.intersects(ARC_ATTR_FAKE) {
                match arc.count {
                    Some(count) => {
                        fake = fake.wrapping_add(count);
                    },
                    None => {},
                }
            }
            k += 1;
        }
        FunctionSummary {
            blocks_count,
            blocks_executed,
            entry_count,
            exit_count: exit_block_count.wrapping_sub(fake),
            branches_count: tally.0,
            branches_executed: tally.1,
            branches_taken: tally.2,
        }
    }

    /// Enters the function at position `f` into the report.
    fn report_function(&self, f: usize, r: &mut Report)
        requires
            self.wf(),
            self.analyzable(),
            f < self@.functions.len(),
            report_sorted(old(r)@),
        ensures
            report_sorted(final(r)@),
            final(r)@ == old(r)@.insert(
                function_file(self@, f as int),
                FileModel {
                    functions: file_of(old(r)@, function_file(self@, f as int)).functions.push(
                        function_record(self@, f as int),
                    ),
                    ..file_of(old(r)@, function_file(self@, f as int))
                },
            ),
    {
        let summary = self.summarize_function(f);
        proof {
            assert(self@.functions[f as int] == self.functions@[f as int]@);
        }
        let (name, filename, line) = match self.functions[f].source {
            Some(source) => (source.name, source.filename, source.line),
            None => (Symbol::unknown(), Symbol::unknown(), 0),
        };
        let record = crate::report::Function { name, line, column: 0, summary };
        let ghost before = r@;
        let mut file = r.take(filename.0);
        file.functions.push(record);
        r.put(filename.0, file);
        proof {
            assert(r@ =~= before.insert(
                filename.0,
                FileModel {
                    functions: file_of(before, filename.0).functions.push(record),
                    ..file_of(before, filename.0)
                },
            ));
            assert forall|k: usize| #[trigger] r@.contains_key(k) implies lines_sorted(
                r@[k].lines,
            ) by {
                if k != filename.0 {
                    assert(before.contains_key(k));
                }
            }
        }
    }

    /// The branch that the arc is reported as, if it is reported.
    fn report_arc(&self, e: usize) -> (r: Option<Branch>)
        requires
            self.wf(),
            e < self@.arcs.len(),
        ensures
            r == branch_of(self@, e as int),
    {
        let arc = self.arcs[e];
        if arc.attr.contains(ARC_ATTR_UNCONDITIONAL) && !arc.attr.contains(
            ARC_ATTR_CALL_NON_RETURN,
        ) {
            return None;
        }
        let (_, dest) = topology_endpoints(&self.graph, e);
        proof {
            assert(self@.edges[e as int].1 < self@.blocks.len());
            assert(self@.blocks[dest as int] == self.blocks@[dest as int]@);
        }
        let pairs = self.blocks[dest].iter_lines();
        let (filename, line) = if pairs.len() > 0 {
            pairs[0]
        } else {
            (Symbol::unknown(), 0)
        };
        Some(
            Branch {
                count: match arc.count {
                    Some(count) => count,
                    None => 0,
                },
                attr: arc.attr,
                filename,
                line,
                column: 0,
            },
        )
    }

    /// Enters the lines of the block `b` into the report, and returns the last of them.
    fn report_block(&self, b: usize, r: &mut Report) -> (last: Option<(Symbol, u32)>)
        requires
            self.wf(),
            b < self@.blocks.len(),
            report_sorted(old(r)@),
        ensures
            report_sorted(final(r)@),
            final(r)@ == touch_pairs(
                old(r)@,
                line_pairs(self@.blocks[b as int].lines, self@.blocks[b as int].lines.len()),
                count_or_zero(self@.blocks[b as int].count),
                self@.blocks[b as int].attr,
                line_pairs(self@.blocks[b as int].lines, self@.blocks[b as int].lines.len()).len(),
            ),
            match last {
                None => line_pairs(
                    self@.blocks[b as int].lines,
                    self@.blocks[b as int].lines.len(),
                ).len() == 0,
                Some(pair) => line_pairs(
                    self@.blocks[b as int].lines,
                    self@.blocks[b as int].lines.len(),
                ).len() > 0 && pair == line_pairs(
                    self@.blocks[b as int].lines,
                    self@.blocks[b as int].lines.len(),
                ).last(),
            },
    {
        proof {
            assert(self@.blocks[b as int] == self.blocks@[b as int]@);
        }
        let count = match self.blocks[b].count {
            Some(count) => count,
            None => 0,
        };
        let attr = self.blocks[b].attr;
        let pairs = self.blocks[b].iter_lines();
        let mut last: Option<(Symbol, u32)> = None;
        let mut i: usize = 0;
        while i < pairs.len()
            invariant
                i <= pairs.len(),
                report_sorted(r@),
                r@ == touch_pairs(old(r)@, pairs@, count, attr, i as nat),
                match last {
                    None => i == 0,
                    Some(pair) => i > 0 && pair == pairs@[i - 1],
                },
            decreases pairs.len() - i,
        {
            let (filename, number) = pairs[i];
            let ghost before = r@;
            let mut file = r.take(filename.0);
            proof {
                if before.contains_key(filename.0) {
                    assert(lines_sorted(before[filename.0].lines));
                }
            }
            touch_lines(&mut file.lines, number, count, attr);
            r.put(filename.0, file);
            last = Some((filename, number));
            i += 1;
            proof {
                assert(r@ =~= touch(before, filename.0, number, count, attr));
                assert forall|k: usize| #[trigger] r@.contains_key(k) implies lines_sorted(
                    r@[k].lines,
                ) by {
                    if k != filename.0 {
                        assert(before.contains_key(k));
                    }
                }
            }
        }
        last
    }

    /// The branches of the arcs that leave the block `b`.
    fn report_branches(&self, b: usize) -> (branches: Vec<Branch>)
        requires
            self.wf(),
            self.analyzable(),
            b < self@.blocks.len(),
        ensures
            branches@ == block_branches(
                self@,
                b as int,
                arcs_from(self@, b as int),
                arcs_from(self@, b as int).len(),
            ),
    {
        let ghost m = self@;
        proof {
            assert(m.blocks[b as int] == self.blocks@[b as int]@);
            assert(m.blocks[b as int].index < m.functions.len());
            assert(m.functions[m.blocks[b as int].index as int] == self.functions@[m.blocks[b as int].index as int]@);
        }
        let exit = self.functions[self.blocks[b].index].exit_block(self.version);
        let list = self.arcs_of(b, true);
        let ghost arcs = arcs_from(m, b as int);
        let mut branches: Vec<Branch> = Vec::new();
        let mut k: usize = 0;
        while k < list.len()
            invariant
                k <= list.len(),
                self.wf(),
                m == self@,
                b < m.blocks.len(),
                exit == exit_of(m, b as int),
                arcs == arcs_from(m, b as int),
                list@.len() == arcs.len(),
                forall|j: int| 0 <= j < list@.len() ==> (#[trigger] list@[j]).0 == arcs[j],
                forall|j: int|
                    0 <= j < list@.len() ==> (#[trigger] list@[j]).0 < m.arcs.len() && m.edges[list@[j].0 as int]
                        == (list@[j].1 as nat, list@[j].2 as nat),
                branches@ == block_branches(m, b as int, arcs, k as nat),
            decreases list.len() - k,
        {
            let e = list[k].0;
            let target = list[k].2;
            let unused = target == exit && match self.arcs[e].count {
                Some(count) => count == 0,
                None => false,
            };
            if !unused {
                match self.report_arc(e) {
                    Some(branch) => {
                        branches.push(branch);
                    },
                    None => {},
                }
            }
            k += 1;
        }
        branches
    }

    /// Obtains a coverage report from the graph.
    pub fn report(&self) -> (r: Report)
        requires
            self.wf(),
            self.analyzable(),
        ensures
            r@ == report_model(self@),
            report_sorted(r@),
    {
        let mut r = Report::default();
        let mut f: usize = 0;
        while f < self.functions.len()
            invariant
                f <= self.functions.len(),
                self.wf(),
                self.analyzable(),
                report_sorted(r@),
                r@ == report_functions(self@, f as nat),
            decreases self.functions.len() - f,
        {
            self.report_function(f, &mut r);
            f += 1;
        }
        let ghost functions = r@;
        let mut b: usize = 0;
        while b < self.blocks.len()
            invariant
                b <= self.blocks.len(),
                self.wf(),
                self.analyzable(),
                report_sorted(r@),
                functions == report_functions(self@, self@.functions.len()),
                r@ == report_blocks(functions, self@, b as nat),
            decreases self.blocks.len() - b,
        {
            let ghost before = r@;
            match self.report_block(b, &mut r) {
                None => {},
                Some((filename, number)) => {
                    let branches = self.report_branches(b);
                    let ghost touched = r@;
                    let mut file = r.take(filename.0);
                    proof {
                        if touched.contains_key(filename.0) {
                            assert(lines_sorted(touched[filename.0].lines));
                        }
                    }
                    extend_lines(&mut file.lines, number, branches);
                    r.put(filename.0, file);
                    proof {
                        assert(r@ =~= touched.insert(
                            filename.0,
                            FileModel {
                                lines: extend_line(
                                    file_of(touched, filename.0).lines,
                                    number,
                                    branches@,
                                ),
                                ..file_of(touched, filename.0)
                            },
                        ));
                        assert forall|k: usize| #[trigger] r@.contains_key(k) implies lines_sorted(
                            r@[k].lines,
                        ) by {
                            if k != filename.0 {
                                assert(touched.contains_key(k));
                            }
                        }
                    }
                },
            }
            proof {
                assert(r@ == report_block(before, self@, b as int));
            }
            b += 1;
        }
        r
    }
}

} // verus!
