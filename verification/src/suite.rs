//! The cases of the comparison suite against C++ Taskflow, in the order the
//! suite runs them, and which of them are selected, run or skipped.

use vstd::prelude::*;
use crate::options::chars_equal;
use crate::text::str_chars;

verus! {

/// A case of the comparison suite.
#[derive(Clone, Copy, Debug, PartialEq, Eq, Structural)]
pub enum CaseId {
    AsyncTask,
    BinaryTree,
    BlackScholes,
    DataPipeline,
    EmbarrassingParallelism,
    Fibonacci,
    ForEach,
    GraphPipeline,
    GraphTraversal,
    HeteroTraversal,
    Integrate,
    LinearChain,
    LinearPipeline,
    Mandelbrot,
    MatrixMultiplication,
    MergeSort,
    Mnist,
    Nqueens,
    Primes,
    ReduceSum,
    Scan,
    Skynet,
    Sort,
    ThreadPool,
    Wavefront,
}

/// Every case, in the order the suite runs them.
pub open spec fn all_cases() -> Seq<CaseId> {
    seq![CaseId::AsyncTask, CaseId::BinaryTree, CaseId::BlackScholes, CaseId::DataPipeline, CaseId::EmbarrassingParallelism, CaseId::Fibonacci, CaseId::ForEach, CaseId::GraphPipeline, CaseId::GraphTraversal, CaseId::HeteroTraversal, CaseId::Integrate, CaseId::LinearChain, CaseId::LinearPipeline, CaseId::Mandelbrot, CaseId::MatrixMultiplication, CaseId::MergeSort, CaseId::Mnist, CaseId::Nqueens, CaseId::Primes, CaseId::ReduceSum, CaseId::Scan, CaseId::Skynet, CaseId::Sort, CaseId::ThreadPool, CaseId::Wavefront]
}

/// The name by which a case is selected.
pub open spec fn case_name(c: CaseId) -> Seq<char> {
    match c {
            CaseId::AsyncTask => "async_task"@,
            CaseId::BinaryTree => "binary_tree"@,
            CaseId::BlackScholes => "black_scholes"@,
            CaseId::DataPipeline => "data_pipeline"@,
            CaseId::EmbarrassingParallelism => "embarrassing_parallelism"@,
            CaseId::Fibonacci => "fibonacci"@,
            CaseId::ForEach => "for_each"@,
            CaseId::GraphPipeline => "graph_pipeline"@,
            CaseId::GraphTraversal => "graph_traversal"@,
            CaseId::HeteroTraversal => "hetero_traversal"@,
            CaseId::Integrate => "integrate"@,
            CaseId::LinearChain => "linear_chain"@,
            CaseId::LinearPipeline => "linear_pipeline"@,
            CaseId::Mandelbrot => "mandelbrot"@,
            CaseId::MatrixMultiplication => "matrix_multiplication"@,
            CaseId::MergeSort => "merge_sort"@,
            CaseId::Mnist => "mnist"@,
            CaseId::Nqueens => "nqueens"@,
            CaseId::Primes => "primes"@,
            CaseId::ReduceSum => "reduce_sum"@,
            CaseId::Scan => "scan"@,
            CaseId::Skynet => "skynet"@,
            CaseId::Sort => "sort"@,
            CaseId::ThreadPool => "thread_pool"@,
            CaseId::Wavefront => "wavefront"@,
    }
}

/// Whether a case has no Rust counterpart and is reported as skipped.
pub open spec fn skipped(c: CaseId) -> bool {
    c is HeteroTraversal || c is Mnist
}

/// The title of a case in the report.
pub open spec fn case_title(c: CaseId) -> Seq<char> {
    match c {
        CaseId::AsyncTask => "Async Task"@,
        CaseId::BinaryTree => "Binary Tree"@,
        CaseId::BlackScholes => "Black-Scholes"@,
        CaseId::DataPipeline => "Data Pipeline"@,
        CaseId::EmbarrassingParallelism => "Embarrassing Parallelism"@,
        CaseId::Fibonacci => "Fibonacci"@,
        CaseId::ForEach => "For Each"@,
        CaseId::GraphPipeline => "Graph Pipeline"@,
        CaseId::GraphTraversal => "Graph Traversal"@,
        CaseId::HeteroTraversal => "Heterogeneous Traversal"@,
        CaseId::Integrate => "Integrate"@,
        CaseId::LinearChain => "Linear Chain"@,
        CaseId::LinearPipeline => "Linear Pipeline"@,
        CaseId::Mandelbrot => "Mandelbrot"@,
        CaseId::MatrixMultiplication => "Matrix Multiplication"@,
        CaseId::MergeSort => "Merge Sort"@,
        CaseId::Mnist => "MNIST"@,
        CaseId::Nqueens => "N-Queens"@,
        CaseId::Primes => "Primes"@,
        CaseId::ReduceSum => "Reduce Sum"@,
        CaseId::Scan => "Scan"@,
        CaseId::Skynet => "Skynet"@,
        CaseId::Sort => "Sort"@,
        CaseId::ThreadPool => "Thread Pool"@,
        CaseId::Wavefront => "Wavefront"@,
    }
}

/// The note given for a skipped case.
pub open spec fn skip_text(c: CaseId) -> Seq<char> {
    match c {
        CaseId::HeteroTraversal => "Skipped: Taskflow benchmark is CUDA-based and RustFlow currently has no heterogeneous execution backend."@,
        CaseId::Mnist => "Skipped: Taskflow benchmark requires external Kaggle MNIST data files that are not present in this workspace."@,
        _ => Seq::empty(),
    }
}

/// One step of the suite: a case to run and time, or a case reported as
/// skipped with its note.
#[derive(Clone, Copy, Debug, PartialEq, Eq, Structural)]
pub enum SuiteStep {
    Run(CaseId),
    Skipped(CaseId),
}

/// Whether `c` is wanted: every case when no selection was given, else the
/// cases whose names were selected.
pub open spec fn wanted(selected: Option<Seq<Seq<char>>>, c: CaseId) -> bool {
    match selected {
        None => true,
        Some(names) => names.contains(case_name(c)),
    }
}

/// The step for a wanted case.
pub open spec fn step_of(c: CaseId) -> SuiteStep {
    if skipped(c) { SuiteStep::Skipped(c) } else { SuiteStep::Run(c) }
}

/// The steps for the wanted cases among `cases`, in order.
pub open spec fn plan_of(selected: Option<Seq<Seq<char>>>, cases: Seq<CaseId>) -> Seq<SuiteStep>
    decreases cases.len(),
{
    if cases.len() == 0 {
        Seq::empty()
    } else {
        let rest = plan_of(selected, cases.drop_last());
        if wanted(selected, cases.last()) { rest.push(step_of(cases.last())) } else { rest }
    }
}

/// The suite's steps: the wanted cases in the suite's fixed order.
pub open spec fn spec_suite_plan(selected: Option<Seq<Seq<char>>>) -> Seq<SuiteStep> {
    plan_of(selected, all_cases())
}

/// The views of an optional list of names.
pub open spec fn opt_views(selected: Option<Vec<String>>) -> Option<Seq<Seq<char>>> {
    match selected {
        Some(v) => Some(v@.map_values(|s: String| s@)),
        None => None,
    }
}

impl CaseId {
    /// Every case, in the suite's order.
    pub fn all() -> (r: Vec<CaseId>)
        ensures
            r@ == all_cases(),
    {
        let mut v: Vec<CaseId> = Vec::new();
        v.push(CaseId::AsyncTask);
        v.push(CaseId::BinaryTree);
        v.push(CaseId::BlackScholes);
        v.push(CaseId::DataPipeline);
        v.push(CaseId::EmbarrassingParallelism);
        v.push(CaseId::Fibonacci);
        v.push(CaseId::ForEach);
        v.push(CaseId::GraphPipeline);
        v.push(CaseId::GraphTraversal);
        v.push(CaseId::HeteroTraversal);
        v.push(CaseId::Integrate);
        v.push(CaseId::LinearChain);
        v.push(CaseId::LinearPipeline);
        v.push(CaseId::Mandelbrot);
        v.push(CaseId::MatrixMultiplication);
        v.push(CaseId::MergeSort);
        v.push(CaseId::Mnist);
        v.push(CaseId::Nqueens);
        v.push(CaseId::Primes);
        v.push(CaseId::ReduceSum);
        v.push(CaseId::Scan);
        v.push(CaseId::Skynet);
        v.push(CaseId::Sort);
        v.push(CaseId::ThreadPool);
        v.push(CaseId::Wavefront);
        proof {
            assert(v@ =~= all_cases());
        }
        v
    }

    /// The name by which the case is selected.
    pub fn name(self) -> (r: &'static str)
        ensures
            r@ == case_name(self),
    {
        proof {
            reveal_strlit("async_task");
            reveal_strlit("binary_tree");
            reveal_strlit("black_scholes");
            reveal_strlit("data_pipeline");
            reveal_strlit("embarrassing_parallelism");
            reveal_strlit("fibonacci");
            reveal_strlit("for_each");
            reveal_strlit("graph_pipeline");
            reveal_strlit("graph_traversal");
            reveal_strlit("hetero_traversal");
            reveal_strlit("integrate");
            reveal_strlit("linear_chain");
            reveal_strlit("linear_pipeline");
            reveal_strlit("mandelbrot");
            reveal_strlit("matrix_multiplication");
            reveal_strlit("merge_sort");
            reveal_strlit("mnist");
            reveal_strlit("nqueens");
            reveal_strlit("primes");
            reveal_strlit("reduce_sum");
            reveal_strlit("scan");
            reveal_strlit("skynet");
            reveal_strlit("sort");
            reveal_strlit("thread_pool");
            reveal_strlit("wavefront");
        }
        match self {
            CaseId::AsyncTask => "async_task",
            CaseId::BinaryTree => "binary_tree",
            CaseId::BlackScholes => "black_scholes",
            CaseId::DataPipeline => "data_pipeline",
            CaseId::EmbarrassingParallelism => "embarrassing_parallelism",
            CaseId::Fibonacci => "fibonacci",
            CaseId::ForEach => "for_each",
            CaseId::GraphPipeline => "graph_pipeline",
            CaseId::GraphTraversal => "graph_traversal",
            CaseId::HeteroTraversal => "hetero_traversal",
            CaseId::Integrate => "integrate",
            CaseId::LinearChain => "linear_chain",
            CaseId::LinearPipeline => "linear_pipeline",
            CaseId::Mandelbrot => "mandelbrot",
            CaseId::MatrixMultiplication => "matrix_multiplication",
            CaseId::MergeSort => "merge_sort",
            CaseId::Mnist => "mnist",
            CaseId::Nqueens => "nqueens",
            CaseId::Primes => "primes",
            CaseId::ReduceSum => "reduce_sum",
            CaseId::Scan => "scan",
            CaseId::Skynet => "skynet",
            CaseId::Sort => "sort",
            CaseId::ThreadPool => "thread_pool",
            CaseId::Wavefront => "wavefront",
        }
    }

    /// The case's title in the report.
    pub fn title(self) -> (r: &'static str)
        ensures
            r@ == case_title(self),
    {
        proof {
            reveal_strlit("Async Task");
            reveal_strlit("Binary Tree");
            reveal_strlit("Black-Scholes");
            reveal_strlit("Data Pipeline");
            reveal_strlit("Embarrassing Parallelism");
            reveal_strlit("Fibonacci");
            reveal_strlit("For Each");
            reveal_strlit("Graph Pipeline");
            reveal_strlit("Graph Traversal");
            reveal_strlit("Heterogeneous Traversal");
            reveal_strlit("Integrate");
            reveal_strlit("Linear Chain");
            reveal_strlit("Linear Pipeline");
            reveal_strlit("Mandelbrot");
            reveal_strlit("Matrix Multiplication");
            reveal_strlit("Merge Sort");
            reveal_strlit("MNIST");
            reveal_strlit("N-Queens");
            reveal_strlit("Primes");
            reveal_strlit("Reduce Sum");
            reveal_strlit("Scan");
            reveal_strlit("Skynet");
            reveal_strlit("Sort");
            reveal_strlit("Thread Pool");
            reveal_strlit("Wavefront");
        }
        match self {
            CaseId::AsyncTask => "Async Task",
            CaseId::BinaryTree => "Binary Tree",
            CaseId::BlackScholes => "Black-Scholes",
            CaseId::DataPipeline => "Data Pipeline",
            CaseId::EmbarrassingParallelism => "Embarrassing Parallelism",
            CaseId::Fibonacci => "Fibonacci",
            CaseId::ForEach => "For Each",
            CaseId::GraphPipeline => "Graph Pipeline",
            CaseId::GraphTraversal => "Graph Traversal",
            CaseId::HeteroTraversal => "Heterogeneous Traversal",
            CaseId::Integrate => "Integrate",
            CaseId::LinearChain => "Linear Chain",
            CaseId::LinearPipeline => "Linear Pipeline",
            CaseId::Mandelbrot => "Mandelbrot",
            CaseId::MatrixMultiplication => "Matrix Multiplication",
            CaseId::MergeSort => "Merge Sort",
            CaseId::Mnist => "MNIST",
            CaseId::Nqueens => "N-Queens",
            CaseId::Primes => "Primes",
            CaseId::ReduceSum => "Reduce Sum",
            CaseId::Scan => "Scan",
            CaseId::Skynet => "Skynet",
            CaseId::Sort => "Sort",
            CaseId::ThreadPool => "Thread Pool",
            CaseId::Wavefront => "Wavefront",
        }
    }

    /// Why a skipped case is not run.
    pub fn skip_note(self) -> (r: Option<&'static str>)
        ensures
            r is Some <==> skipped(self),
            r matches Some(t) ==> t@ == skip_text(self),
    {
        proof {
            reveal_strlit("Skipped: Taskflow benchmark is CUDA-based and RustFlow currently has no heterogeneous execution backend.");
            reveal_strlit("Skipped: Taskflow benchmark requires external Kaggle MNIST data files that are not present in this workspace.");
        }
        match self {
            CaseId::HeteroTraversal => Some("Skipped: Taskflow benchmark is CUDA-based and RustFlow currently has no heterogeneous execution backend."),
            CaseId::Mnist => Some("Skipped: Taskflow benchmark requires external Kaggle MNIST data files that are not present in this workspace."),
            _ => None,
        }
    }
}

/// Whether `c` is wanted by the selection.
pub fn wants_case(selected: &Option<Vec<String>>, c: CaseId) -> (r: bool)
    ensures
        r == wanted(opt_views(*selected), c),
{
    match selected {
        None => true,
        Some(names) => {
            let ghost views = names@.map_values(|s: String| s@);
            proof {
                assert(opt_views(*selected) == Some(views));
            }
            let name = c.name();
            let mut k: usize = 0;
            while k < names.len()
                invariant
                    k <= names@.len(),
                    views == names@.map_values(|s: String| s@),
                    name@ == case_name(c),
                    forall|q: int| 0 <= q < k ==> views[q] != case_name(c),
                opt_views(*selected) == Some(views),
                decreases names@.len() - k,
            {
                let chars = str_chars(names[k].as_str());
                proof {
                    assert(views[k as int] == names@[k as int]@);
                }
                if chars_equal(&chars, name) {
                    proof {
                        assert(views[k as int] == names@[k as int]@);
                        assert(views[k as int] == case_name(c));
                        assert(views.contains(case_name(c)));
                    }
                    return true;
                }
                k = k + 1;
            }
            proof {
                assert(!views.contains(case_name(c)));
            }
            false
        },
    }
}

/// The steps of the suite for a selection of case names (all cases when
/// none is given): the wanted cases in the suite's fixed order, each to be
/// run, or reported as skipped when it has no Rust counterpart.
pub fn suite_plan(selected: &Option<Vec<String>>) -> (r: Vec<SuiteStep>)
    ensures
        r@ == spec_suite_plan(opt_views(*selected)),
{
    let cases = CaseId::all();
    let mut steps: Vec<SuiteStep> = Vec::new();
    let mut k: usize = 0;
    while k < cases.len()
        invariant
            k <= cases@.len(),
            cases@ == all_cases(),
            steps@ == plan_of(opt_views(*selected), cases@.take(k as int)),
        decreases cases@.len() - k,
    {
        let c = cases[k];
        proof {
            assert(cases@.take(k + 1).drop_last() =~= cases@.take(k as int));
            assert(cases@.take(k + 1).last() == c);
        }
        if wants_case(selected, c) {
            let step = match c {
                CaseId::HeteroTraversal => SuiteStep::Skipped(c),
                CaseId::Mnist => SuiteStep::Skipped(c),
                _ => SuiteStep::Run(c),
            };
            steps.push(step);
        }
        k = k + 1;
    }
    proof {
        assert(cases@.take(k as int) =~= cases@);
    }
    steps
}

} // verus!
