//! Coverage report.
//!
//! The [`Report`] holds, for every line and branch and function of every source file, how
//! often it was run. It says nothing of how it is to be shown.

use crate::intern::Symbol;
use crate::projection::{
    extend_line, file_of, lemma_extend_line, lemma_place, lemma_touch_line, place, touch_line,
};
use crate::raw::{ArcAttr, BlockAttr};
use std::collections::HashMap;
use vstd::prelude::*;

verus! {

/// Coverage information about a branch.
#[derive(Copy, Clone, PartialEq, Eq, Hash, Debug)]
pub struct Branch {
    /// Number of times this branch is taken.
    pub count: u64,
    /// Attributes associated with this branch.
    pub attr: ArcAttr,
    /// The target filename of this branch.
    pub filename: Symbol,
    /// The line number of the target of this branch. Zero if missing.
    pub line: u32,
    /// The column number of the target of this branch. Zero if missing.
    pub column: u32,
}

/// Statistical summary of a function.
#[derive(Copy, Clone, PartialEq, Eq, Hash, Debug)]
pub struct FunctionSummary {
    /// Number of basic blocks in the function.
    pub blocks_count: usize,
    /// Number of basic blocks that have been executed (having non-zero count).
    pub blocks_executed: usize,
    /// How many times the function is called.
    pub entry_count: u64,
    /// How many times the function has returned.
    pub exit_count: u64,
    /// Number of conditional branches in the function.
    pub branches_count: usize,
    /// Number of conditional branches whose block has been executed.
    pub branches_executed: usize,
    /// Number of branches that have been taken.
    pub branches_taken: usize,
}

impl Default for FunctionSummary {
    fn default() -> (s: FunctionSummary)
        ensures
            s == (FunctionSummary {
                blocks_count: 0,
                blocks_executed: 0,
                entry_count: 0,
                exit_count: 0,
                branches_count: 0,
                branches_executed: 0,
                branches_taken: 0,
            }),
    {
        FunctionSummary {
            blocks_count: 0,
            blocks_executed: 0,
            entry_count: 0,
            exit_count: 0,
            branches_count: 0,
            branches_executed: 0,
            branches_taken: 0,
        }
    }
}

/// Coverage information about a function.
#[derive(Copy, Clone, PartialEq, Eq, Hash, Debug)]
pub struct Function {
    /// Name of the function.
    pub name: Symbol,
    /// The line number where this function is defined. Zero if missing.
    pub line: u32,
    /// The column number where this function is defined. Zero if missing.
    pub column: u32,
    /// Summary about this function.
    pub summary: FunctionSummary,
}

/// Statistical summary of a file.
#[derive(Copy, Clone, PartialEq, Eq, Hash, Debug)]
pub struct FileSummary {
    /// Number of lines that can be profiled.
    pub lines_count: usize,
    /// Number of lines that have been covered.
    pub lines_covered: usize,
    /// Number of conditional branches in functions defined in this file.
    pub branches_count: usize,
    /// Number of conditional branches whose block has been executed.
    pub branches_executed: usize,
    /// Number of branches that have been taken.
    pub branches_taken: usize,
    /// Number of functions defined in this file.
    pub functions_count: usize,
    /// Number of functions that have been called.
    pub functions_called: usize,
}

/// Coverage information about a source line of code.
#[derive(Clone, PartialEq, Eq, Hash, Debug)]
pub struct Line {
    /// Number of times this line is executed: the greatest count of a block that holds
    /// the line.
    pub count: u64,
    /// Attributes associated with this line.
    pub attr: BlockAttr,
    /// List of branches this line will lead to.
    pub branches: Vec<Branch>,
}

/// A line of a report, as a mathematical value.
pub struct LineModel {
    pub count: u64,
    pub attr: BlockAttr,
    pub branches: Seq<Branch>,
}

impl View for Line {
    type V = LineModel;

    open spec fn view(&self) -> LineModel {
        LineModel { count: self.count, attr: self.attr, branches: self.branches@ }
    }
}

impl Default for Line {
    fn default() -> (line: Line)
        ensures
            line@ == empty_line(),
    {
        Line { count: 0, attr: BlockAttr { bits: 0 }, branches: Vec::new() }
    }
}

/// The line that nothing is known of.
pub open spec fn empty_line() -> LineModel {
    LineModel { count: 0, attr: BlockAttr { bits: 0 }, branches: Seq::empty() }
}

/// Coverage information about a source file.
#[derive(Clone, PartialEq, Eq, Hash, Debug)]
pub struct File {
    /// Lines in the file, each with its number, in rising order of the numbers.
    pub lines: Vec<(u32, Line)>,
    /// Functions in the file.
    pub functions: Vec<Function>,
}

/// A file of a report, as a mathematical value.
pub struct FileModel {
    pub lines: Seq<(u32, LineModel)>,
    pub functions: Seq<Function>,
}

/// The lines with their numbers, as mathematical values.
pub open spec fn line_views(lines: Seq<(u32, Line)>) -> Seq<(u32, LineModel)> {
    lines.map_values(|entry: (u32, Line)| (entry.0, entry.1@))
}

impl View for File {
    type V = FileModel;

    open spec fn view(&self) -> FileModel {
        FileModel { lines: line_views(self.lines@), functions: self.functions@ }
    }
}

/// The file that nothing is known of.
pub open spec fn empty_file() -> FileModel {
    FileModel { lines: Seq::empty(), functions: Seq::empty() }
}

impl Default for File {
    fn default() -> (file: File)
        ensures
            file@ == empty_file(),
    {
        let file = File { lines: Vec::new(), functions: Vec::new() };
        proof {
            assert(file@.lines =~= Seq::empty());
        }
        file
    }
}

/// Whether the numbers of the lines rise.
pub open spec fn lines_sorted(lines: Seq<(u32, LineModel)>) -> bool {
    forall|i: int, j: int| 0 <= i < j < lines.len() ==> lines[i].0 < lines[j].0
}

/// The number of lines with a count above zero among the first `n`.
pub open spec fn covered_lines(lines: Seq<(u32, LineModel)>, n: nat) -> nat
    decreases n,
{
    if n == 0 {
        0
    } else {
        covered_lines(lines, (n - 1) as nat) + (if lines[n - 1].1.count > 0 {
            1nat
        } else {
            0nat
        })
    }
}

/// The sums, over the first `n` functions, of the branches, of the branches whose block was
/// executed and of the branches taken, and the number of functions that were called.
pub open spec fn function_totals(functions: Seq<Function>, n: nat) -> (nat, nat, nat, nat)
    decreases n,
{
    if n == 0 {
        (0, 0, 0, 0)
    } else {
        let rest = function_totals(functions, (n - 1) as nat);
        let s = functions[n - 1].summary;
        (
            (rest.0 + s.branches_count) as nat,
            (rest.1 + s.branches_executed) as nat,
            (rest.2 + s.branches_taken) as nat,
            rest.3 + (if s.entry_count > 0 {
                1nat
            } else {
                0nat
            }),
        )
    }
}

/// The sums grow with the number of functions.
pub proof fn lemma_function_totals_monotone(functions: Seq<Function>, a: nat, b: nat)
    requires
        a <= b,
    ensures
        function_totals(functions, a).0 <= function_totals(functions, b).0,
        function_totals(functions, a).1 <= function_totals(functions, b).1,
        function_totals(functions, a).2 <= function_totals(functions, b).2,
        function_totals(functions, a).3 <= function_totals(functions, b).3,
        function_totals(functions, a).3 <= a,
    decreases b,
{
    if a < b {
        lemma_function_totals_monotone(functions, a, (b - 1) as nat);
    } else if a > 0 {
        lemma_function_totals_monotone(functions, (a - 1) as nat, (a - 1) as nat);
    }
}

/// There are no more covered lines than lines.
pub proof fn lemma_covered_lines_bound(lines: Seq<(u32, LineModel)>, n: nat)
    ensures
        covered_lines(lines, n) <= n,
    decreases n,
{
    if n > 0 {
        lemma_covered_lines_bound(lines, (n - 1) as nat);
    }
}

impl File {
    /// Produces a summary of the file. The numbers of branches of its functions must add up
    /// to numbers that fit the machine.
    pub fn summary(&self) -> (s: FileSummary)
        requires
            function_totals(self@.functions, self@.functions.len()).0 <= usize::MAX,
            function_totals(self@.functions, self@.functions.len()).1 <= usize::MAX,
            function_totals(self@.functions, self@.functions.len()).2 <= usize::MAX,
        ensures
            s.lines_count == self@.lines.len(),
            s.lines_covered == covered_lines(self@.lines, self@.lines.len()),
            s.functions_count == self@.functions.len(),
            s.branches_count == function_totals(self@.functions, self@.functions.len()).0,
            s.branches_executed == function_totals(self@.functions, self@.functions.len()).1,
            s.branches_taken == function_totals(self@.functions, self@.functions.len()).2,
            s.functions_called == function_totals(self@.functions, self@.functions.len()).3,
    {
        let mut lines_covered: usize = 0;
        let mut i: usize = 0;
        while i < self.lines.len()
            invariant
                i <= self.lines.len(),
                lines_covered == covered_lines(self@.lines, i as nat),
                lines_covered <= i,
            decreases self.lines.len() - i,
        {
            proof {
                assert(self@.lines[i as int] == (self.lines@[i as int].0, self.lines@[i as int].1@));
            }
            if self.lines[i].1.count > 0 {
                lines_covered += 1;
            }
            i += 1;
        }
        let mut totals: (usize, usize, usize, usize) = (0, 0, 0, 0);
        let mut f: usize = 0;
        while f < self.functions.len()
            invariant
                f <= self.functions.len(),
                function_totals(self@.functions, self@.functions.len()).0 <= usize::MAX,
                function_totals(self@.functions, self@.functions.len()).1 <= usize::MAX,
                function_totals(self@.functions, self@.functions.len()).2 <= usize::MAX,
                totals.0 == function_totals(self@.functions, f as nat).0,
                totals.1 == function_totals(self@.functions, f as nat).1,
                totals.2 == function_totals(self@.functions, f as nat).2,
                totals.3 == function_totals(self@.functions, f as nat).3,
            decreases self.functions.len() - f,
        {
            proof {
                lemma_function_totals_monotone(
                    self@.functions,
                    (f + 1) as nat,
                    self@.functions.len(),
                );
            }
            let s = self.functions[f].summary;
            let called: usize = if s.entry_count > 0 {
                1
            } else {
                0
            };
            totals = crate::utils::tuple_4_add(
                totals,
                (s.branches_count, s.branches_executed, s.branches_taken, called),
            );
            f += 1;
        }
        FileSummary {
            lines_count: self.lines.len(),
            lines_covered,
            branches_count: totals.0,
            branches_executed: totals.1,
            branches_taken: totals.2,
            functions_count: self.functions.len(),
            functions_called: totals.3,
        }
    }
}

/// A coverage report, generated from a [`crate::graph::Graph`].
#[derive(Clone, PartialEq, Eq, Debug)]
pub struct Report {
    /// Files in the report, by the handle of their name.
    pub files: HashMap<usize, File>,
}

impl View for Report {
    type V = Map<usize, FileModel>;

    open spec fn view(&self) -> Map<usize, FileModel> {
        Map::new(|k: usize| self.files@.contains_key(k), |k: usize| self.files@[k]@)
    }
}

impl Default for Report {
    fn default() -> (report: Report)
        ensures
            report@ == Map::<usize, FileModel>::empty(),
    {
        let report = Report { files: HashMap::new() };
        proof {
            assert(report@ =~= Map::<usize, FileModel>::empty());
        }
        report
    }
}

/// Whether the numbers of the lines of every file rise.
pub open spec fn report_sorted(report: Map<usize, FileModel>) -> bool {
    forall|file: usize| #[trigger] report.contains_key(file) ==> lines_sorted(report[file].lines)
}

/// The place of the line with the given number, or the place where it would go.
pub(crate) fn find_line(lines: &Vec<(u32, Line)>, number: u32) -> (i: usize)
    requires
        lines_sorted(line_views(lines@)),
    ensures
        i == place(line_views(lines@), number),
        i <= lines@.len(),
{
    let mut i: usize = lines.len();
    while i > 0 && lines[i - 1].0 >= number
        invariant
            i <= lines.len(),
            forall|j: int| i <= j < lines@.len() ==> (#[trigger] line_views(lines@)[j]).0 >= number,
        decreases i,
    {
        i -= 1;
    }
    proof {
        let views = line_views(lines@);
        assert forall|j: int| 0 <= j < i implies (#[trigger] views[j]).0 < number by {
            assert(views[j].0 <= views[i - 1].0);
        }
        lemma_place(views, number, i as int);
    }
    i
}

/// Enters that a block with the given count and attributes holds the line `number`.
pub(crate) fn touch_lines(lines: &mut Vec<(u32, Line)>, number: u32, count: u64, attr: BlockAttr)
    requires
        lines_sorted(line_views(old(lines)@)),
    ensures
        line_views(final(lines)@) == touch_line(line_views(old(lines)@), number, count, attr),
        lines_sorted(line_views(final(lines)@)),
{
    let i = find_line(lines, number);
    let ghost before = line_views(lines@);
    proof {
        lemma_touch_line(before, number, count, attr);
    }
    if i < lines.len() && lines[i].0 == number {
        if count > lines[i].1.count {
            lines[i].1.count = count;
        }
        lines[i].1.attr.insert(attr.bits);
        proof {
            assert(line_views(lines@) =~= touch_line(before, number, count, attr));
        }
    } else {
        let line = Line { count, attr, branches: Vec::new() };
        lines.insert(i, (number, line));
        proof {
            assert(line_views(lines@) =~= touch_line(before, number, count, attr));
        }
    }
}

/// Gives the line `number` more branches.
pub(crate) fn extend_lines(lines: &mut Vec<(u32, Line)>, number: u32, branches: Vec<Branch>)
    requires
        lines_sorted(line_views(old(lines)@)),
    ensures
        line_views(final(lines)@) == extend_line(line_views(old(lines)@), number, branches@),
        lines_sorted(line_views(final(lines)@)),
{
    let i = find_line(lines, number);
    let ghost before = line_views(lines@);
    let ghost more = branches@;
    let mut branches = branches;
    proof {
        lemma_extend_line(before, number, more);
    }
    if i < lines.len() && lines[i].0 == number {
        lines[i].1.branches.append(&mut branches);
        proof {
            assert(line_views(lines@) =~= extend_line(before, number, more));
        }
    } else {
        let line = Line { count: 0, attr: BlockAttr { bits: 0 }, branches };
        lines.insert(i, (number, line));
        proof {
            assert(line_views(lines@) =~= extend_line(before, number, more));
        }
    }
}

impl Report {
    /// Takes what the report says of a file out of the report.
    pub(crate) fn take(&mut self, file: usize) -> (f: File)
        ensures
            f@ == file_of(old(self)@, file),
            final(self)@ == old(self)@.remove(file),
    {
        let f = match self.files.remove(&file) {
            Some(f) => f,
            None => File::default(),
        };
        proof {
            assert(self@ =~= old(self)@.remove(file));
        }
        f
    }

    /// Puts what the report says of a file into the report.
    pub(crate) fn put(&mut self, file: usize, f: File)
        ensures
            final(self)@ == old(self)@.insert(file, f@),
    {
        self.files.insert(file, f);
        proof {
            assert(self@ =~= old(self)@.insert(file, f@));
        }
    }
}

} // verus!
