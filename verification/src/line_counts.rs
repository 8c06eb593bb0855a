//! What holds of the counts of the lines of a report.

use crate::intern::Symbol;
use crate::model::GraphModel;
use crate::projection::{
    arcs_from, block_branches, count_or_zero, extend_line, file_of, function_file, has_line,
    lemma_extend_line, lemma_place_splits, lemma_touch_line, line_pairs, place, report_blocks,
    report_functions, report_model, touch_line, touch_pairs,
};
use crate::raw::BlockAttr;
use crate::report::{lines_sorted, report_sorted, Branch, FileModel, LineModel};
use vstd::prelude::*;

verus! {

/// The file names and line numbers of a block.
pub open spec fn pairs_of(m: GraphModel, b: int) -> Seq<(Symbol, u32)> {
    line_pairs(m.blocks[b].lines, m.blocks[b].lines.len())
}

/// Whether the block holds the line of the file.
pub open spec fn contributes(m: GraphModel, b: int, file: usize, number: u32) -> bool {
    pairs_of(m, b).contains((Symbol(file), number))
}

/// Whether `count` is the greatest count of the blocks below `n` that hold the line.
pub open spec fn greatest_count(m: GraphModel, n: nat, file: usize, number: u32, count: u64)
    -> bool {
    &&& forall|b: int|
        0 <= b < n && #[trigger] contributes(m, b, file, number) ==> count_or_zero(
            m.blocks[b].count,
        ) <= count
    &&& exists|b: int|
        0 <= b < n && #[trigger] contributes(m, b, file, number) && count_or_zero(
            m.blocks[b].count,
        ) == count
}

/// Whether the line with the given number is among the lines.
pub open spec fn listed_line(lines: Seq<(u32, LineModel)>, number: u32) -> bool {
    exists|i: int| 0 <= i < lines.len() && (#[trigger] lines[i]).0 == number
}

/// Whether the report holds just the lines of the blocks below `n`, each with the
/// greatest count of the blocks that hold it.
pub open spec fn counted(report: Map<usize, FileModel>, m: GraphModel, n: nat) -> bool {
    &&& report_sorted(report)
    &&& forall|file: usize, i: int|
        report.contains_key(file) && 0 <= i < report[file].lines.len() ==> greatest_count(
            m,
            n,
            file,
            (#[trigger] report[file].lines[i]).0,
            report[file].lines[i].1.count,
        )
    &&& forall|b: int, file: usize, number: u32|
        0 <= b < n && #[trigger] contributes(m, b, file, number) ==> report.contains_key(file)
            && listed_line(report[file].lines, number)
}

/// What touching a line does to the lines.
proof fn lemma_touch_entries(lines: Seq<(u32, LineModel)>, number: u32, count: u64, attr: BlockAttr)
    requires
        lines_sorted(lines),
    ensures
        lines_sorted(touch_line(lines, number, count, attr)),
        listed_line(touch_line(lines, number, count, attr), number),
        forall|j: int|
            0 <= j < touch_line(lines, number, count, attr).len() && (#[trigger] touch_line(
                lines,
                number,
                count,
                attr,
            )[j]).0 == number ==> {
                let new = touch_line(lines, number, count, attr)[j].1.count;
                &&& new >= count
                &&& new == count || exists|i: int|
                    0 <= i < lines.len() && (#[trigger] lines[i]).0 == number && lines[i].1.count
                        == new
                &&& forall|i: int|
                    0 <= i < lines.len() && (#[trigger] lines[i]).0 == number
                        ==> lines[i].1.count <= new
            },
        forall|j: int|
            0 <= j < touch_line(lines, number, count, attr).len() && (#[trigger] touch_line(
                lines,
                number,
                count,
                attr,
            )[j]).0 != number ==> exists|i: int|
                0 <= i < lines.len() && #[trigger] lines[i] == touch_line(
                    lines,
                    number,
                    count,
                    attr,
                )[j],
        forall|i: int|
            0 <= i < lines.len() ==> listed_line(
                touch_line(lines, number, count, attr),
                (#[trigger] lines[i]).0,
            ),
{
    let after = touch_line(lines, number, count, attr);
    let p = place(lines, number);
    lemma_touch_line(lines, number, count, attr);
    lemma_place_splits(lines, number, lines.len());
    if has_line(lines, number) {
        assert forall|j: int| 0 <= j < after.len() && (#[trigger] after[j]).0 == number implies {
            let new = after[j].1.count;
            &&& new >= count
            &&& new == count || exists|i: int|
                0 <= i < lines.len() && (#[trigger] lines[i]).0 == number && lines[i].1.count
                    == new
            &&& forall|i: int|
                0 <= i < lines.len() && (#[trigger] lines[i]).0 == number ==> lines[i].1.count
                    <= new
        } by {
            if j != p {
                assert(after[j] == lines[j]);
                if j < p {
                    assert(lines[j].0 < lines[p].0);
                } else {
                    assert(lines[p].0 < lines[j].0);
                }
            }
            assert(lines[p].0 == number);
            assert forall|i: int|
                0 <= i < lines.len() && (#[trigger] lines[i]).0 == number implies lines[i].1.count
                <= after[j].1.count by {
                if i < p {
                    assert(lines[i].0 < lines[p].0);
                } else if i > p {
                    assert(lines[p].0 < lines[i].0);
                }
            }
        }
        assert forall|j: int| 0 <= j < after.len() && (#[trigger] after[j]).0 != number implies exists|
            i: int,
        | 0 <= i < lines.len() && #[trigger] lines[i] == after[j] by {
            assert(lines[j] == after[j]);
        }
        assert forall|i: int| 0 <= i < lines.len() implies listed_line(
            after,
            (#[trigger] lines[i]).0,
        ) by {
            assert(after[i].0 == lines[i].0);
        }
        assert(after[p].0 == number);
    } else {
        assert forall|i: int| 0 <= i < lines.len() implies (#[trigger] lines[i]).0 != number by {
            if i >= p && lines[i].0 == number {
                assert(lines[p].0 >= number);
                if i > p {
                    assert(lines[p].0 < lines[i].0);
                }
            }
        }
        assert(after[p].0 == number);
        assert forall|j: int| 0 <= j < after.len() && (#[trigger] after[j]).0 == number implies {
            let new = after[j].1.count;
            &&& new >= count
            &&& new == count || exists|i: int|
                0 <= i < lines.len() && (#[trigger] lines[i]).0 == number && lines[i].1.count
                    == new
            &&& forall|i: int|
                0 <= i < lines.len() && (#[trigger] lines[i]).0 == number ==> lines[i].1.count
                    <= new
        } by {
            if j < p {
                assert(after[j] == lines[j]);
            } else if j > p {
                assert(after[j] == lines[j - 1]);
            }
        }
        assert forall|j: int| 0 <= j < after.len() && (#[trigger] after[j]).0 != number implies exists|
            i: int,
        | 0 <= i < lines.len() && #[trigger] lines[i] == after[j] by {
            if j < p {
                assert(lines[j] == after[j]);
            } else {
                assert(lines[j - 1] == after[j]);
            }
        }
        assert forall|i: int| 0 <= i < lines.len() implies listed_line(
            after,
            (#[trigger] lines[i]).0,
        ) by {
            if i < p {
                assert(after[i] == lines[i]);
            } else {
                assert(after[i + 1] == lines[i]);
            }
        }
    }
}

/// What giving a line more branches does to the lines: the numbers and counts stay.
proof fn lemma_extend_entries(lines: Seq<(u32, LineModel)>, number: u32, branches: Seq<Branch>)
    requires
        lines_sorted(lines),
        listed_line(lines, number),
    ensures
        lines_sorted(extend_line(lines, number, branches)),
        extend_line(lines, number, branches).len() == lines.len(),
        forall|i: int|
            0 <= i < lines.len() ==> (#[trigger] extend_line(lines, number, branches)[i]).0
                == lines[i].0 && extend_line(lines, number, branches)[i].1.count
                == lines[i].1.count,
{
    lemma_extend_line(lines, number, branches);
    lemma_place_splits(lines, number, lines.len());
    let p = place(lines, number);
    let i = choose|i: int| 0 <= i < lines.len() && (#[trigger] lines[i]).0 == number;
    if i > p {
        assert(lines[p].0 < lines[i].0);
    }
    assert(has_line(lines, number));
}

/// The report of the functions has no lines.
proof fn lemma_functions_have_no_lines(m: GraphModel, n: nat)
    ensures
        forall|file: usize| #[trigger]
            report_functions(m, n).contains_key(file) ==> report_functions(m, n)[file].lines.len()
                == 0,
    decreases n,
{
    if n > 0 {
        lemma_functions_have_no_lines(m, (n - 1) as nat);
        let rest = report_functions(m, (n - 1) as nat);
        let file0 = function_file(m, n - 1);
        assert forall|file: usize| #[trigger]
            report_functions(m, n).contains_key(file) implies report_functions(
            m,
            n,
        )[file].lines.len() == 0 by {
            if file != file0 {
                assert(rest.contains_key(file));
            } else if rest.contains_key(file0) {
                assert(rest[file0].lines.len() == 0);
            }
        }
    }
}

/// How far the lines of the block `n` have entered the report: the first `k` of its
/// lines were touched, and a line that was touched has the greatest count of the blocks up
/// to `n` that hold it.
spec fn partly_counted(
    report: Map<usize, FileModel>,
    m: GraphModel,
    n: nat,
    k: nat,
) -> bool {
    let pairs = pairs_of(m, n as int);
    let count = count_or_zero(m.blocks[n as int].count);
    &&& report_sorted(report)
    &&& forall|file: usize, i: int|
        report.contains_key(file) && 0 <= i < report[file].lines.len() ==> {
            let number = (#[trigger] report[file].lines[i]).0;
            let found = report[file].lines[i].1.count;
            if touched(pairs, k, file, number) {
                &&& found >= count
                &&& forall|b: int|
                    0 <= b < n && #[trigger] contributes(m, b, file, number) ==> count_or_zero(
                        m.blocks[b].count,
                    ) <= found
                &&& found == count || exists|b: int|
                    0 <= b < n && #[trigger] contributes(m, b, file, number) && count_or_zero(
                        m.blocks[b].count,
                    ) == found
            } else {
                greatest_count(m, n, file, number, found)
            }
        }
    &&& forall|b: int, file: usize, number: u32|
        0 <= b < n && #[trigger] contributes(m, b, file, number) ==> report.contains_key(file)
            && listed_line(report[file].lines, number)
    &&& forall|j: int|
        0 <= j < k ==> report.contains_key((#[trigger] pairs[j]).0.0) && listed_line(
            report[pairs[j].0.0].lines,
            pairs[j].1,
        )
}

/// Whether the line of the file is among the first `k` of the pairs.
spec fn touched(pairs: Seq<(Symbol, u32)>, k: nat, file: usize, number: u32) -> bool {
    exists|j: int| 0 <= j < k && j < pairs.len() && #[trigger] pairs[j] == (Symbol(file), number)
}

proof fn lemma_touch_pairs(report: Map<usize, FileModel>, m: GraphModel, n: nat, k: nat)
    requires
        counted(report, m, n),
        n < m.blocks.len(),
        k <= pairs_of(m, n as int).len(),
    ensures
        partly_counted(
            touch_pairs(
                report,
                pairs_of(m, n as int),
                count_or_zero(m.blocks[n as int].count),
                m.blocks[n as int].attr,
                k,
            ),
            m,
            n,
            k,
        ),
    decreases k,
{
    let pairs = pairs_of(m, n as int);
    let count = count_or_zero(m.blocks[n as int].count);
    let attr = m.blocks[n as int].attr;
    if k == 0 {
        assert forall|file: usize, number: u32| !touched(pairs, 0, file, number) by {}
    } else {
        lemma_touch_pairs(report, m, n, (k - 1) as nat);
        let before = touch_pairs(report, pairs, count, attr, (k - 1) as nat);
        let after = touch_pairs(report, pairs, count, attr, k);
        let file0 = pairs[k - 1].0.0;
        let number0 = pairs[k - 1].1;
        assert(pairs[k - 1] == (Symbol(file0), number0));
        let old_lines = file_of(before, file0).lines;
        let new_lines = touch_line(old_lines, number0, count, attr);
        assert(after == before.insert(
            file0,
            FileModel { lines: new_lines, ..file_of(before, file0) },
        ));
        assert(lines_sorted(old_lines)) by {
            if before.contains_key(file0) {
                assert(lines_sorted(before[file0].lines));
            }
        }
        lemma_touch_entries(old_lines, number0, count, attr);
        assert forall|file: usize, number: u32|
            touched(pairs, k, file, number) <==> touched(pairs, (k - 1) as nat, file, number) || (
            file == file0 && number == number0) by {
            if touched(pairs, k, file, number) {
                let j = choose|j: int|
                    0 <= j < k && j < pairs.len() && #[trigger] pairs[j] == (Symbol(file), number);
                if j < k - 1 {
                    assert(touched(pairs, (k - 1) as nat, file, number));
                }
            }
            if touched(pairs, (k - 1) as nat, file, number) {
                let j = choose|j: int|
                    0 <= j < k - 1 && j < pairs.len() && #[trigger] pairs[j] == (
                        Symbol(file),
                        number,
                    );
                assert(touched(pairs, k, file, number));
            }
            if file == file0 && number == number0 {
                assert(pairs[k - 1] == (Symbol(file), number));
                assert(touched(pairs, k, file, number));
            }
        }
        assert(report_sorted(after)) by {
            assert forall|file: usize| #[trigger] after.contains_key(file) implies lines_sorted(
                after[file].lines,
            ) by {
                if file != file0 {
                    assert(before.contains_key(file));
                }
            }
        }
        assert forall|file: usize, i: int|
            after.contains_key(file) && 0 <= i < after[file].lines.len() implies {
            let number = (#[trigger] after[file].lines[i]).0;
            let found = after[file].lines[i].1.count;
            if touched(pairs, k, file, number) {
                &&& found >= count
                &&& forall|b: int|
                    0 <= b < n && #[trigger] contributes(m, b, file, number) ==> count_or_zero(
                        m.blocks[b].count,
                    ) <= found
                &&& found == count || exists|b: int|
                    0 <= b < n && #[trigger] contributes(m, b, file, number) && count_or_zero(
                        m.blocks[b].count,
                    ) == found
            } else {
                greatest_count(m, n, file, number, found)
            }
        } by {
            let number = after[file].lines[i].0;
            let found = after[file].lines[i].1.count;
            if file != file0 {
                assert(before.contains_key(file));
                assert(after[file] == before[file]);
                let same = before[file].lines[i];
            } else if number != number0 {
                let h = choose|h: int|
                    0 <= h < old_lines.len() && #[trigger] old_lines[h] == new_lines[i];
                assert(before.contains_key(file0));
                let same = before[file0].lines[h];
            } else {
                lemma_touched_line(before, m, n, (k - 1) as nat, file0, number0, found);
            }
        }
        assert forall|b: int, file: usize, number: u32|
            0 <= b < n && #[trigger] contributes(m, b, file, number) implies after.contains_key(
            file,
        ) && listed_line(after[file].lines, number) by {
            assert(before.contains_key(file) && listed_line(before[file].lines, number));
            if file == file0 {
                let h = choose|h: int|
                    0 <= h < old_lines.len() && (#[trigger] old_lines[h]).0 == number;
                assert(listed_line(new_lines, old_lines[h].0));
            }
        }
        assert forall|j: int| 0 <= j < k implies after.contains_key((#[trigger] pairs[j]).0.0)
            && listed_line(after[pairs[j].0.0].lines, pairs[j].1) by {
            if j < k - 1 {
                assert(before.contains_key(pairs[j].0.0) && listed_line(
                    before[pairs[j].0.0].lines,
                    pairs[j].1,
                ));
                if pairs[j].0.0 == file0 {
                    let h = choose|h: int|
                        0 <= h < old_lines.len() && (#[trigger] old_lines[h]).0 == pairs[j].1;
                    assert(listed_line(new_lines, old_lines[h].0));
                }
            }
        }
    }
}

/// The count of a line that was just touched is the greatest of the count of the block
/// and of the counts it had.
proof fn lemma_touched_line(
    before: Map<usize, FileModel>,
    m: GraphModel,
    n: nat,
    k: nat,
    file: usize,
    number: u32,
    found: u64,
)
    requires
        partly_counted(before, m, n, k),
        ({
            let count = count_or_zero(m.blocks[n as int].count);
            let old_lines = file_of(before, file).lines;
            &&& found >= count
            &&& found == count || exists|i: int|
                0 <= i < old_lines.len() && (#[trigger] old_lines[i]).0 == number
                    && old_lines[i].1.count == found
            &&& forall|i: int|
                0 <= i < old_lines.len() && (#[trigger] old_lines[i]).0 == number
                    ==> old_lines[i].1.count <= found
        }),
    ensures
        ({
            let count = count_or_zero(m.blocks[n as int].count);
            &&& forall|b: int|
                0 <= b < n && #[trigger] contributes(m, b, file, number) ==> count_or_zero(
                    m.blocks[b].count,
                ) <= found
            &&& found == count || exists|b: int|
                0 <= b < n && #[trigger] contributes(m, b, file, number) && count_or_zero(
                    m.blocks[b].count,
                ) == found
        }),
{
    let count = count_or_zero(m.blocks[n as int].count);
    let old_lines = file_of(before, file).lines;
    let pairs = pairs_of(m, n as int);
    assert forall|b: int| 0 <= b < n && #[trigger] contributes(m, b, file, number) implies count_or_zero(
        m.blocks[b].count,
    ) <= found by {
        assert(before.contains_key(file) && listed_line(before[file].lines, number));
        let i = choose|i: int|
            0 <= i < before[file].lines.len() && (#[trigger] before[file].lines[i]).0 == number;
        let entry = before[file].lines[i];
        assert(old_lines[i].1.count <= found);
        if touched(pairs, k, file, number) {
        } else {
            assert(greatest_count(m, n, file, number, entry.1.count));
        }
    }
    if found != count {
        let i = choose|i: int|
            0 <= i < old_lines.len() && (#[trigger] old_lines[i]).0 == number
                && old_lines[i].1.count == found;
        assert(before.contains_key(file));
        let entry = before[file].lines[i];
        if touched(pairs, k, file, number) {
        } else {
            assert(greatest_count(m, n, file, number, entry.1.count));
        }
    }
}

/// The report of the first `n` blocks holds the lines of these blocks, each with the
/// greatest count of the blocks that hold it.
proof fn lemma_report_blocks_counted(m: GraphModel, n: nat)
    requires
        n <= m.blocks.len(),
    ensures
        counted(report_blocks(report_functions(m, m.functions.len()), m, n), m, n),
    decreases n,
{
    let start = report_functions(m, m.functions.len());
    if n == 0 {
        lemma_functions_have_no_lines(m, m.functions.len());
        assert forall|file: usize| #[trigger] start.contains_key(file) implies lines_sorted(
            start[file].lines,
        ) by {}
    } else {
        let b = (n - 1) as nat;
        lemma_report_blocks_counted(m, b);
        let before = report_blocks(start, m, b);
        let after = report_blocks(start, m, n);
        let pairs = pairs_of(m, b as int);
        let count = count_or_zero(m.blocks[b as int].count);
        lemma_touch_pairs(before, m, b, pairs.len());
        let touched_report = touch_pairs(before, pairs, count, m.blocks[b as int].attr, pairs.len());
        assert forall|file: usize, number: u32|
            touched(pairs, pairs.len(), file, number) <==> contributes(m, b as int, file, number) by {
            if touched(pairs, pairs.len(), file, number) {
                let j = choose|j: int|
                    0 <= j < pairs.len() && j < pairs.len() && #[trigger] pairs[j] == (
                        Symbol(file),
                        number,
                    );
                assert(pairs.contains((Symbol(file), number)));
            }
            if contributes(m, b as int, file, number) {
                let j = pairs.index_of((Symbol(file), number));
                assert(pairs[j] == (Symbol(file), number));
            }
        }
        if pairs.len() == 0 {
            assert(after == touched_report);
        } else {
            let origin = pairs.last();
            let old = file_of(touched_report, origin.0.0);
            let branches = block_branches(m, b as int, arcs_from(m, b as int), arcs_from(
                m,
                b as int,
            ).len());
            assert(pairs[pairs.len() - 1] == origin);
            assert(touched_report.contains_key(origin.0.0) && listed_line(
                touched_report[origin.0.0].lines,
                origin.1,
            ));
            assert(lines_sorted(touched_report[origin.0.0].lines));
            lemma_extend_entries(old.lines, origin.1, branches);
            let extended = extend_line(old.lines, origin.1, branches);
            assert(after == touched_report.insert(
                origin.0.0,
                FileModel { lines: extended, ..old },
            ));
            assert forall|file: usize| #[trigger] after.contains_key(file) implies lines_sorted(
                after[file].lines,
            ) by {
                if file != origin.0.0 {
                    assert(touched_report.contains_key(file));
                }
            }
        }
        assert forall|file: usize, i: int|
            after.contains_key(file) && 0 <= i < after[file].lines.len() implies greatest_count(
            m,
            n,
            file,
            (#[trigger] after[file].lines[i]).0,
            after[file].lines[i].1.count,
        ) by {
            assert(touched_report.contains_key(file));
            let entry = touched_report[file].lines[i];
            assert(after[file].lines[i].0 == entry.0 && after[file].lines[i].1.count
                == entry.1.count);
            let number = entry.0;
            let found = entry.1.count;
            if touched(pairs, pairs.len(), file, number) {
                assert(contributes(m, b as int, file, number));
                if found != count {
                    let w = choose|w: int|
                        0 <= w < b && #[trigger] contributes(m, w, file, number) && count_or_zero(
                            m.blocks[w].count,
                        ) == found;
                    assert(0 <= w < n && contributes(m, w, file, number));
                }
            } else {
                assert(greatest_count(m, b, file, number, found));
                let w = choose|w: int|
                    0 <= w < b && #[trigger] contributes(m, w, file, number) && count_or_zero(
                        m.blocks[w].count,
                    ) == found;
                assert(0 <= w < n && contributes(m, w, file, number));
            }
        }
        assert forall|w: int, file: usize, number: u32|
            0 <= w < n && #[trigger] contributes(m, w, file, number) implies after.contains_key(
            file,
        ) && listed_line(after[file].lines, number) by {
            if w < b {
                assert(touched_report.contains_key(file) && listed_line(
                    touched_report[file].lines,
                    number,
                ));
            } else {
                let j = pairs.index_of((Symbol(file), number));
                assert(pairs[j] == (Symbol(file), number));
                assert(touched_report.contains_key(pairs[j].0.0) && listed_line(
                    touched_report[pairs[j].0.0].lines,
                    pairs[j].1,
                ));
            }
            let h = choose|h: int|
                0 <= h < touched_report[file].lines.len() && (
                #[trigger] touched_report[file].lines[h]).0 == number;
            assert(after[file].lines[h].0 == number);
        }
    }
}

/// In the report of a graph, each line of a file has the greatest count of the blocks
/// that hold the line, where a block without a count stands for zero; and each line that a
/// block holds is in the report.
pub proof fn lemma_line_count_is_greatest(m: GraphModel)
    ensures
        forall|file: usize, i: int|
            report_model(m).contains_key(file) && 0 <= i < report_model(m)[file].lines.len()
                ==> greatest_count(
                m,
                m.blocks.len(),
                file,
                (#[trigger] report_model(m)[file].lines[i]).0,
                report_model(m)[file].lines[i].1.count,
            ),
        forall|b: int, file: usize, number: u32|
            0 <= b < m.blocks.len() && #[trigger] contributes(m, b, file, number)
                ==> report_model(m).contains_key(file) && listed_line(
                report_model(m)[file].lines,
                number,
            ),
        report_sorted(report_model(m)),
{
    lemma_report_blocks_counted(m, m.blocks.len());
}

} // verus!
