use cov::intern::Symbol;
use cov::raw::BlockAttr;
use cov::report::{File, FileSummary, Function, FunctionSummary, Line};
use cov::utils::{tuple_3_add, tuple_4_add, IntoStringLossy};

fn function(entry_count: u64, branches: (usize, usize, usize)) -> Function {
    Function {
        name: Symbol(1),
        line: 1,
        column: 0,
        summary: FunctionSummary {
            blocks_count: 4,
            blocks_executed: 2,
            entry_count,
            exit_count: entry_count,
            branches_count: branches.0,
            branches_executed: branches.1,
            branches_taken: branches.2,
        },
    }
}

fn line(count: u64) -> Line {
    Line { count, attr: BlockAttr::empty(), branches: vec![] }
}

#[test]
fn test_file_summary() {
    let file = File {
        lines: vec![(1, line(3)), (2, line(0)), (5, line(1)), (9, line(0))],
        functions: vec![function(2, (4, 3, 2)), function(0, (6, 0, 0)), function(7, (1, 1, 1))],
    };
    assert_eq!(
        file.summary(),
        FileSummary {
            lines_count: 4,
            lines_covered: 2,
            branches_count: 11,
            branches_executed: 4,
            branches_taken: 3,
            functions_count: 3,
            functions_called: 2,
        }
    );
}

#[test]
fn test_empty_file_summary() {
    assert_eq!(
        File::default().summary(),
        FileSummary {
            lines_count: 0,
            lines_covered: 0,
            branches_count: 0,
            branches_executed: 0,
            branches_taken: 0,
            functions_count: 0,
            functions_called: 0,
        }
    );
}

#[test]
fn test_tuple_add() {
    assert_eq!(tuple_3_add((1, 2, 3), (10, 20, 30)), (11, 22, 33));
    assert_eq!(tuple_4_add((1, 2, 3, 4), (10, 20, 30, 40)), (11, 22, 33, 44));
}

#[test]
fn test_into_string_lossy() {
    assert_eq!(b"plain".to_vec().into_string_lossy(), "plain");
    assert_eq!("gr\u{fc}n".as_bytes().to_vec().into_string_lossy(), "gr\u{fc}n");
    assert_eq!(vec![0x61, 0xff, 0x62].into_string_lossy(), "a\u{fffd}b");
}
