//! What a run of the solver is told, what a graph file says, and what is
//! saved of a result.
//!
//! A graph file is read line by line. Empty lines and lines whose first
//! word is `c` are skipped. Every other line ends with two numbers: on the
//! first such line the number of nodes and the number of edges, on each
//! further line the two ends of an edge. A result is saved as the nodes of
//! the clique, from the smallest identifier up, with a space behind each.

use crate::adjacency::{edge_count, isolated, lists_within, node_order, with_edge};
use crate::graph::Graph;
use crate::text::{
    append, decimal, number, read_number, split, split_at, trim, views, write_number,
};
use vstd::prelude::*;
use vstd::string::StringSliceAdditionalSpecFns;

verus! {

/// Options of solver for maximum clique problem.
#[derive(Clone, Copy, Debug, PartialEq, Eq, Structural)]
pub enum Solver {
    Backtracking,
    BranchAndBound,
}

/// The arguments of a run as they were entered, before they are validated.
#[derive(Debug)]
pub struct Arguments {
    /// The file that holds the graph, if one was named.
    pub filename: Option<String>,
    /// The name of the strategy, if one was named.
    pub solver: Option<String>,
    /// Whether the result is to be saved.
    pub save: bool,
}

/// Reading configuration.
#[derive(Debug)]
pub struct Config {
    filename: String,
    solver: Solver,
    save: bool,
}

/// The strategy that the name stands for: branch and bound for its own
/// name, backtracking for any other name and for none.
pub open spec fn named_solver(name: Option<String>) -> Solver {
    match name {
        Some(s) => if s@ == "BranchAndBound"@ {
            Solver::BranchAndBound
        } else {
            Solver::Backtracking
        },
        None => Solver::Backtracking,
    }
}

impl Config {
    /// The file that holds the graph.
    pub closed spec fn spec_filename(&self) -> Seq<char> {
        self.filename@
    }

    /// The strategy of the run.
    pub closed spec fn spec_solver(&self) -> Solver {
        self.solver
    }

    /// Whether the result is to be saved.
    pub closed spec fn spec_save(&self) -> bool {
        self.save
    }

    /// Validates the arguments and returns the reading configuration. The
    /// file must be named; the strategy is backtracking unless branch and
    /// bound is named.
    pub fn new(matches: Arguments) -> (r: Result<Config, &'static str>)
        ensures
            r is Err <==> matches.filename is None,
            r matches Err(e) ==> e@ == "you did not enter the filename"@,
            r matches Ok(c) ==> c.spec_filename() == matches.filename->0@ && c.spec_solver()
                == named_solver(matches.solver) && c.spec_save() == matches.save,
    {
        let Arguments { filename, solver, save } = matches;
        match filename {
            Some(filename) => {
                let solver = match solver {
                    Some(name) => {
                        let wanted = "BranchAndBound".to_owned();
                        if name == wanted {
                            Solver::BranchAndBound
                        } else {
                            Solver::Backtracking
                        }
                    },
                    None => Solver::Backtracking,
                };
                Ok(Config { filename, solver, save })
            },
            None => Err("you did not enter the filename"),
        }
    }

    /// Returns the filename.
    pub fn get_filename(&self) -> (name: &String)
        ensures
            name@ == self.spec_filename(),
    {
        &self.filename
    }

    /// Returns the solver.
    pub fn get_solver(&self) -> (solver: &Solver)
        ensures
            *solver == self.spec_solver(),
    {
        &self.solver
    }

    /// Returns true if the result must be saved or false otherwise.
    pub fn is_save(&self) -> (save: bool)
        ensures
            save == self.spec_save(),
    {
        self.save
    }
}

/// What one line of a graph file gives.
#[derive(Clone, Copy, Debug, PartialEq, Eq, Structural)]
pub enum Line {
    /// Nothing: the line is empty or a comment.
    Skipped,
    /// The two numbers at its end.
    Pair(usize, usize),
    /// An error: the line has fewer than three words.
    Short,
    /// An error: its last two words are not two numbers.
    Malformed,
}

/// Why a text is not a graph file.
#[derive(Clone, Copy, Debug, PartialEq, Eq, Structural)]
pub enum ReadError {
    /// The line with this number, counted from one, has fewer than three
    /// words.
    InvalidPair(usize),
    /// The last two words of the line with this number, counted from one,
    /// are not two numbers.
    NotAPair(usize),
    /// No line gives a pair.
    NoPairs,
    /// The first pair announces another number of edges than pairs follow.
    EdgeCount,
    /// The first pair announces no node.
    NoNodes,
    /// An edge names this node, which the graph does not have.
    UnknownNode(usize),
}

/// What the line gives. Its words stand between spaces. A line without a
/// byte, and one whose first word is `c`, is skipped. Any other line ends
/// with two numbers, after at least one word more.
pub open spec fn line_pair(line: Seq<u8>) -> Line {
    let words = split(line, 32);
    if line.len() == 0 || words[0] == seq![99u8] {
        Line::Skipped
    } else if words.len() <= 2 {
        Line::Short
    } else {
        match (number(trim(words[words.len() - 2])), number(trim(words[words.len() - 1]))) {
            (Some(a), Some(b)) => Line::Pair(a, b),
            _ => Line::Malformed,
        }
    }
}

/// The pairs that the lines give, in their order, or the error of the first
/// line that has one.
pub open spec fn pairs_of(lines: Seq<Seq<u8>>) -> Result<Seq<(usize, usize)>, ReadError>
    decreases lines.len(),
{
    if lines.len() == 0 {
        Ok(Seq::empty())
    } else {
        match pairs_of(lines.drop_last()) {
            Err(e) => Err(e),
            Ok(pairs) => match line_pair(lines.last()) {
                Line::Skipped => Ok(pairs),
                Line::Pair(a, b) => Ok(pairs.push((a, b))),
                Line::Short => Err(ReadError::InvalidPair(lines.len() as usize)),
                Line::Malformed => Err(ReadError::NotAPair(lines.len() as usize)),
            },
        }
    }
}

/// The first end of an edge, in the order of `edges`, that is no node of
/// `adj`.
pub open spec fn first_unknown(adj: Map<usize, Seq<usize>>, edges: Seq<(usize, usize)>) -> Option<
    usize,
>
    decreases edges.len(),
{
    if edges.len() == 0 {
        None
    } else {
        match first_unknown(adj, edges.drop_last()) {
            Some(n) => Some(n),
            None => if !adj.contains_key(edges.last().0) {
                Some(edges.last().0)
            } else if !adj.contains_key(edges.last().1) {
                Some(edges.last().1)
            } else {
                None
            },
        }
    }
}

/// The graph after the edges of `edges` were inserted, one after another.
pub open spec fn with_edges(adj: Map<usize, Seq<usize>>, edges: Seq<(usize, usize)>) -> Map<
    usize,
    Seq<usize>,
>
    decreases edges.len(),
{
    if edges.len() == 0 {
        adj
    } else {
        with_edge(with_edges(adj, edges.drop_last()), edges.last().0, edges.last().1)
    }
}

/// The graph that the pairs describe: the first pair gives the number of
/// nodes and the number of edges, each further pair an edge.
pub open spec fn graph_of(pairs: Seq<(usize, usize)>) -> Result<Map<usize, Seq<usize>>, ReadError> {
    if pairs.len() == 0 {
        Err(ReadError::NoPairs)
    } else if pairs[0].1 != pairs.len() - 1 {
        Err(ReadError::EdgeCount)
    } else if pairs[0].0 == 0 {
        Err(ReadError::NoNodes)
    } else {
        match first_unknown(isolated(pairs[0].0), pairs.drop_first()) {
            Some(n) => Err(ReadError::UnknownNode(n)),
            None => Ok(with_edges(isolated(pairs[0].0), pairs.drop_first())),
        }
    }
}

/// The graph that the text of a graph file describes, line by line.
pub open spec fn graph_in(content: Seq<u8>) -> Result<Map<usize, Seq<usize>>, ReadError> {
    match pairs_of(split(content, 10)) {
        Err(e) => Err(e),
        Ok(pairs) => graph_of(pairs),
    }
}

/// `degree` is the length of the longest adjacency list.
pub open spec fn is_highest(adj: Map<usize, Seq<usize>>, degree: usize) -> bool {
    &&& lists_within(adj, degree as nat)
    &&& degree == 0 || exists|a: usize| adj.contains_key(a) && (#[trigger] adj[a]).len() == degree
}

/// Reads one line of a graph file.
pub fn read_line(line: &Vec<u8>) -> (r: Line)
    ensures
        r == line_pair(line@),
{
    let words = split_at(line.as_slice(), 32);
    proof {
        assert(views(words@)[0] == words@[0]@);
    }
    if line.len() == 0 || (words[0].len() == 1 && words[0][0] == 99) {
        proof {
            if line.len() != 0 {
                assert(words@[0]@ =~= seq![99u8]);
            }
        }
        return Line::Skipped;
    }
    proof {
        if words@[0]@ == seq![99u8] {
            assert(seq![99u8].len() == 1);
            assert(seq![99u8][0] == 99u8);
        }
    }
    let count = words.len();
    if count <= 2 {
        return Line::Short;
    }
    proof {
        assert(views(words@)[count - 2] == words@[count - 2]@);
        assert(views(words@)[count - 1] == words@[count - 1]@);
    }
    let a = read_number(words[count - 2].as_slice());
    let b = read_number(words[count - 1].as_slice());
    match (a, b) {
        (Some(a), Some(b)) => Line::Pair(a, b),
        _ => Line::Malformed,
    }
}

/// Reads the pairs of a graph file, line by line.
pub fn read_pairs(content: &[u8]) -> (r: Result<Vec<(usize, usize)>, ReadError>)
    ensures
        match pairs_of(split(content@, 10)) {
            Ok(pairs) => r matches Ok(v) && v@ == pairs,
            Err(e) => r == Err::<Vec<(usize, usize)>, ReadError>(e),
        },
{
    let lines = split_at(content, 10);
    let ghost all = split(content@, 10);
    let mut pairs: Vec<(usize, usize)> = Vec::new();
    let mut i: usize = 0;
    while i < lines.len()
        invariant
            i <= lines.len(),
            views(lines@) == all,
            all == split(content@, 10),
            pairs_of(all.take(i as int)) == Ok::<Seq<(usize, usize)>, ReadError>(pairs@),
        decreases lines.len() - i,
    {
        proof {
            assert(all.take(i + 1).drop_last() =~= all.take(i as int));
            assert(all.take(i + 1).last() == lines@[i as int]@);
        }
        match read_line(&lines[i]) {
            Line::Skipped => {},
            Line::Pair(a, b) => {
                pairs.push((a, b));
            },
            Line::Short => {
                proof {
                    assert(pairs_of(all.take(i + 1)) == Err::<Seq<(usize, usize)>, ReadError>(
                        ReadError::InvalidPair((i + 1) as usize),
                    ));
                    lemma_pairs_fail(all, i + 1);
                }
                return Err(ReadError::InvalidPair(i + 1));
            },
            Line::Malformed => {
                proof {
                    assert(pairs_of(all.take(i + 1)) == Err::<Seq<(usize, usize)>, ReadError>(
                        ReadError::NotAPair((i + 1) as usize),
                    ));
                    lemma_pairs_fail(all, i + 1);
                }
                return Err(ReadError::NotAPair(i + 1));
            },
        }
        i += 1;
    }
    proof {
        assert(all.take(i as int) =~= all);
    }
    Ok(pairs)
}

/// The error of some first lines is the error of all the lines.
pub proof fn lemma_pairs_fail(lines: Seq<Seq<u8>>, k: int)
    requires
        0 <= k <= lines.len(),
        pairs_of(lines.take(k)) is Err,
    ensures
        pairs_of(lines) == pairs_of(lines.take(k)),
    decreases lines.len() - k,
{
    if k < lines.len() {
        assert(lines.take(k + 1).drop_last() =~= lines.take(k));
        lemma_pairs_fail(lines, k + 1);
    } else {
        assert(lines.take(k) =~= lines);
    }
}

/// An unknown end among some first edges is the first unknown end of all
/// the edges.
pub proof fn lemma_unknown_found(adj: Map<usize, Seq<usize>>, edges: Seq<(usize, usize)>, k: int)
    requires
        0 <= k <= edges.len(),
        first_unknown(adj, edges.take(k)) is Some,
    ensures
        first_unknown(adj, edges) == first_unknown(adj, edges.take(k)),
    decreases edges.len() - k,
{
    if k < edges.len() {
        assert(edges.take(k + 1).drop_last() =~= edges.take(k));
        lemma_unknown_found(adj, edges, k + 1);
    } else {
        assert(edges.take(k) =~= edges);
    }
}

/// Builds the graph that the pairs describe: the first pair gives the
/// number of nodes and the number of edges, each further pair an edge, in
/// the order in which the edges are inserted.
pub fn build(pairs: &Vec<(usize, usize)>) -> (r: Result<Graph, ReadError>)
    ensures
        match graph_of(pairs@) {
            Ok(adj) => r matches Ok(g) && g@ == adj && is_highest(g@, g.degree()),
            Err(e) => r == Err::<Graph, ReadError>(e),
        },
{
    if pairs.len() == 0 {
        return Err(ReadError::NoPairs);
    }
    let (count, announced) = pairs[0];
    if announced != pairs.len() - 1 {
        return Err(ReadError::EdgeCount);
    }
    if count == 0 {
        return Err(ReadError::NoNodes);
    }
    let mut graph = Graph::new(count);
    let ghost start = isolated(count);
    let ghost edges = pairs@.drop_first();
    let mut i: usize = 1;
    while i < pairs.len()
        invariant
            1 <= i <= pairs.len(),
            pairs@[0] == (count, announced),
            announced == pairs.len() - 1,
            count != 0,
            edges == pairs@.drop_first(),
            start == isolated(count),
            first_unknown(start, edges.take(i - 1)) is None,
            graph@ == with_edges(start, edges.take(i - 1)),
            graph@.dom() == start.dom(),
            is_highest(graph@, graph.degree()),
        decreases pairs.len() - i,
    {
        let (a, b) = pairs[i];
        proof {
            assert(edges.take(i as int).drop_last() =~= edges.take(i - 1));
            assert(edges.take(i as int).last() == pairs@[i as int]);
        }
        if !graph.contains_node(a) {
            proof {
                assert(first_unknown(start, edges.take(i as int)) == Some(a));
                lemma_unknown_found(start, edges, i as int);
            }
            return Err(ReadError::UnknownNode(a));
        }
        if !graph.contains_node(b) {
            proof {
                assert(first_unknown(start, edges.take(i as int)) == Some(b));
                lemma_unknown_found(start, edges, i as int);
            }
            return Err(ReadError::UnknownNode(b));
        }
        let ghost before = graph@;
        let ghost low = graph.degree();
        graph.insert_edge((a, b));
        proof {
            assert forall|x: usize| #[trigger] graph@.contains_key(x) implies graph@[x].len()
                <= graph.degree() by {
                if x != a && x != b {
                    assert(graph@[x] == before[x]);
                    assert(before.contains_key(x));
                }
            }
            if graph.degree() == low {
                let w = choose|w: usize| before.contains_key(w) && (#[trigger] before[w]).len()
                    == low;
                if low != 0 {
                    assert(w != a && w != b) by {
                        if w == a || w == b {
                            assert(graph@[w].len() > before[w].len());
                        }
                    }
                    assert(graph@[w] == before[w]);
                    assert(graph@.contains_key(w));
                }
            } else {
                assert(graph@.contains_key(a) && graph@.contains_key(b));
            }
        }
        i += 1;
    }
    proof {
        assert(edges.take(i - 1) =~= edges);
    }
    Ok(graph)
}

/// Reads the graph that the text of a graph file describes.
pub fn read(content: &[u8]) -> (r: Result<Graph, ReadError>)
    ensures
        match graph_in(content@) {
            Ok(adj) => r matches Ok(g) && g@ == adj && is_highest(g@, g.degree()),
            Err(e) => r == Err::<Graph, ReadError>(e),
        },
{
    match read_pairs(content) {
        Ok(pairs) => build(&pairs),
        Err(e) => Err(e),
    }
}

/// The numbers of `order`, from the last to the first, each in decimal
/// digits and with a space behind it.
pub open spec fn listing(order: Seq<usize>) -> Seq<u8>
    decreases order.len(),
{
    if order.len() == 0 {
        Seq::empty()
    } else {
        decimal(order.last() as nat) + seq![32u8] + listing(order.drop_last())
    }
}

/// The part of `filename` behind its last slash, or all of it where it has
/// none.
pub open spec fn base_name(filename: Seq<u8>) -> Seq<u8> {
    split(filename, 47).last()
}

/// The folder that holds the results, in the home folder `home`.
pub open spec fn result_folder(home: Seq<u8>) -> Seq<u8> {
    home + "/max-clique-solutions/".spec_bytes()
}

/// The file that holds the result for the graph file `filename`.
pub open spec fn result_file(home: Seq<u8>, filename: Seq<u8>) -> Seq<u8> {
    result_folder(home) + "result_".spec_bytes() + base_name(filename)
}

/// What is to be saved of a result, and where.
#[derive(Debug)]
pub struct Saving {
    /// The folder of the results, which is made where it is missing.
    pub folder: Vec<u8>,
    /// The file of the result.
    pub file: Vec<u8>,
    /// What the file is to hold: the nodes of the result from the smallest
    /// identifier up, with a space behind each.
    pub content: Vec<u8>,
}

/// Says what is to be written for the result `result` of the graph file
/// `filename`, and where below the home folder `home`.
pub fn write(home: &[u8], filename: &[u8], result: &Graph) -> (saving: Saving)
    ensures
        saving.folder@ == result_folder(home@),
        saving.file@ == result_file(home@, filename@),
        saving.content@ == listing(node_order(result@)),
{
    let mut folder: Vec<u8> = Vec::new();
    append(&mut folder, home);
    append(&mut folder, "/max-clique-solutions/".as_bytes());
    let pieces = split_at(filename, 47);
    let mut file: Vec<u8> = Vec::new();
    append(&mut file, folder.as_slice());
    append(&mut file, "result_".as_bytes());
    proof {
        assert(views(pieces@).last() == pieces@[pieces@.len() - 1]@);
    }
    append(&mut file, pieces[pieces.len() - 1].as_slice());
    let nodes = result.nodes();
    let mut content: Vec<u8> = Vec::new();
    let mut k: usize = nodes.len();
    assert(nodes@.take(k as int) =~= nodes@);
    while k > 0
        invariant
            k <= nodes.len(),
            content@ + listing(nodes@.take(k as int)) == listing(nodes@),
        decreases k,
    {
        let ghost before = content@;
        write_number(&mut content, nodes[k - 1]);
        content.push(32);
        proof {
            let head = nodes@.take(k as int);
            assert(head.drop_last() =~= nodes@.take(k - 1));
            assert(head.last() == nodes@[k - 1]);
            assert(content@ + listing(nodes@.take(k - 1)) =~= before + listing(head));
        }
        k -= 1;
    }
    proof {
        assert(content@ + listing(nodes@.take(0)) =~= content@);
    }
    Saving { folder, file, content }
}

/// Tells whether the graph is small enough to be shown: it has at most ten
/// nodes, or at most ten edges.
pub fn is_printable(graph: &Graph) -> (b: bool)
    ensures
        b == (graph@.dom().len() <= 10 || edge_count(graph@) <= 10),
{
    graph.nlen() <= 10 || graph.total_degree() / 2 <= 10
}

} // verus!
