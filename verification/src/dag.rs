//! The graph of a search: for each board that was looked at, either the boards
//! that follow it on the way to the goal, or the note that there is no way.
//! The graph can be written out in the DOT language.

use crate::board::Board;
use crate::text::{digits, picture, push_digits};
use std::collections::HashMap;
use vstd::prelude::*;
use vstd::string::{StrSliceExecFns, StringExecFns};

verus! {

/// A graph of solutions. Its view maps each board that was looked at to the
/// boards that follow it on a way to the goal, in the order in which they
/// were noted, or to nothing where the board was found to have no solution.
pub struct SolutionDag {
    elements: HashMap<u64, Option<Vec<Board>>>,
    root: Board,
}

impl View for SolutionDag {
    type V = Map<Board, Option<Seq<Board>>>;

    closed spec fn view(&self) -> Map<Board, Option<Seq<Board>>> {
        Map::new(
            |b: Board| self.elements@.contains_key(b.0),
            |b: Board|
                match self.elements@[b.0] {
                    Some(list) => Some(list@),
                    None => None,
                },
        )
    }
}

/// The boards that follow `parent` once `board` has been noted to follow it:
/// `board` comes behind those that were noted before, unless it is among them.
pub open spec fn followers_with(
    dag: Map<Board, Option<Seq<Board>>>,
    parent: Board,
    board: Board,
) -> Seq<Board> {
    if dag.contains_key(parent) && dag[parent] is Some {
        let known = dag[parent]->Some_0;
        if known.contains(board) {
            known
        } else {
            known.push(board)
        }
    } else {
        seq![board]
    }
}

/// No board is noted twice to follow the same board.
pub open spec fn followers_distinct(dag: Map<Board, Option<Seq<Board>>>) -> bool {
    forall|b: Board| #[trigger]
        dag.contains_key(b) && dag[b] is Some ==> dag[b]->Some_0.no_duplicates()
}

/// The graph shows a board that holds eight pegs at most and is noted with
/// the boards that follow it.
pub open spec fn shown(dag: Map<Board, Option<Seq<Board>>>, b: Board) -> bool {
    b@.len() <= 8 && dag.contains_key(b) && dag[b] is Some
}

/// The name of the node of a board: the letter n and the word of the board
/// in decimal.
pub open spec fn node_name(b: Board) -> Seq<char> {
    seq!['n'] + digits(b.0 as nat)
}

/// A text with each line feed written as a backslash and the letter n.
pub open spec fn escaped(text: Seq<char>) -> Seq<char>
    decreases text.len(),
{
    if text.len() == 0 {
        Seq::empty()
    } else if text.last() == '\n' {
        escaped(text.drop_last()) + seq!['\\', 'n']
    } else {
        escaped(text.drop_last()).push(text.last())
    }
}

/// The line that declares the node of a board, labelled with its picture.
pub open spec fn node_line(b: Board) -> Seq<char> {
    node_name(b) + " [label=\""@ + escaped(picture(b))
        + "\", style=filled, fillcolor=green];\n"@
}

/// The lines that declare the nodes of those boards of the list that the
/// graph shows.
pub open spec fn node_lines(dag: Map<Board, Option<Seq<Board>>>, nodes: Seq<Board>) -> Seq<char>
    decreases nodes.len(),
{
    if nodes.len() == 0 {
        Seq::empty()
    } else if shown(dag, nodes.last()) {
        node_lines(dag, nodes.drop_last()) + node_line(nodes.last())
    } else {
        node_lines(dag, nodes.drop_last())
    }
}

/// The line of the edge between two boards.
pub open spec fn edge_line(a: Board, b: Board) -> Seq<char> {
    node_name(a) + " -- "@ + node_name(b) + ";\n"@
}

/// The lines of the edges from a board to each board of a list.
pub open spec fn edges_from(a: Board, list: Seq<Board>) -> Seq<char>
    decreases list.len(),
{
    if list.len() == 0 {
        Seq::empty()
    } else {
        edges_from(a, list.drop_last()) + edge_line(a, list.last())
    }
}

/// The lines of the edges from those boards of the list that the graph
/// shows to the boards that follow them.
pub open spec fn edge_lines(dag: Map<Board, Option<Seq<Board>>>, nodes: Seq<Board>) -> Seq<char>
    decreases nodes.len(),
{
    if nodes.len() == 0 {
        Seq::empty()
    } else if shown(dag, nodes.last()) {
        edge_lines(dag, nodes.drop_last()) + edges_from(nodes.last(), dag[nodes.last()]->Some_0)
    } else {
        edge_lines(dag, nodes.drop_last())
    }
}

/// The graph in the DOT language, for the boards of `nodes` in their order:
/// first the nodes, then the edges.
pub open spec fn graph_text(dag: Map<Board, Option<Seq<Board>>>, nodes: Seq<Board>) -> Seq<char> {
    "graph solution {\n"@ + node_lines(dag, nodes) + edge_lines(dag, nodes) + "}\n"@
}

/// Puts the name of the node of a board at the end of the string.
fn push_node_name(s: &mut String, b: Board)
    ensures
        final(s)@ == old(s)@ + node_name(b),
{
    s.push('n');
    push_digits(s, b.0);
    proof {
        assert(s@ =~= old(s)@ + node_name(b));
    }
}

/// Puts the picture of a board at the end of the string, with each line feed
/// written as a backslash and the letter n.
fn push_label(s: &mut String, b: Board)
    ensures
        final(s)@ == old(s)@ + escaped(picture(b)),
{
    let drawn = b.render();
    let text = drawn.as_str();
    let n = text.unicode_len();
    let mut i: usize = 0;
    proof {
        assert(text@.subrange(0, 0) =~= Seq::<char>::empty());
        assert(s@ =~= old(s)@ + escaped(text@.subrange(0, 0)));
    }
    while i < n
        invariant
            0 <= i <= n,
            n == text@.len(),
            text@ == picture(b),
            s@ == old(s)@ + escaped(text@.subrange(0, i as int)),
        decreases n - i,
    {
        let c = text.get_char(i);
        proof {
            assert(text@.subrange(0, i + 1).drop_last() =~= text@.subrange(0, i as int));
            assert(text@.subrange(0, i + 1).last() == c);
        }
        if c == '\n' {
            s.push('\\');
            s.push('n');
        } else {
            s.push(c);
        }
        i = i + 1;
        proof {
            assert(s@ =~= old(s)@ + escaped(text@.subrange(0, i as int)));
        }
    }
    proof {
        assert(text@.subrange(0, n as int) =~= text@);
    }
}

/// Puts the line that declares the node of a board at the end of the string.
fn push_node_line(s: &mut String, b: Board)
    ensures
        final(s)@ == old(s)@ + node_line(b),
{
    push_node_name(s, b);
    s.append(" [label=\"");
    push_label(s, b);
    s.append("\", style=filled, fillcolor=green];\n");
    proof {
        assert(s@ =~= old(s)@ + node_line(b));
    }
}

/// Puts the lines of the edges from a board to each board of a list at the
/// end of the string.
fn push_edges(s: &mut String, a: Board, list: &Vec<Board>)
    ensures
        final(s)@ == old(s)@ + edges_from(a, list@),
{
    let mut i: usize = 0;
    proof {
        assert(list@.subrange(0, 0) =~= Seq::<Board>::empty());
        assert(s@ =~= old(s)@ + edges_from(a, list@.subrange(0, 0)));
    }
    while i < list.len()
        invariant
            0 <= i <= list.len(),
            s@ == old(s)@ + edges_from(a, list@.subrange(0, i as int)),
        decreases list.len() - i,
    {
        let ghost before = s@;
        push_node_name(s, a);
        s.append(" -- ");
        push_node_name(s, list[i]);
        s.append(";\n");
        i = i + 1;
        proof {
            let now = list@.subrange(0, i as int);
            assert(now.drop_last() =~= list@.subrange(0, i - 1));
            assert(now.last() == list@[i - 1]);
            assert(s@ =~= before + edge_line(a, list@[i - 1]));
            assert(s@ =~= old(s)@ + edges_from(a, now));
        }
    }
    proof {
        assert(list@.subrange(0, list.len() as int) =~= list@);
    }
}

/// A copy of a list of boards.
fn copy_boards(list: &Vec<Board>) -> (r: Vec<Board>)
    ensures
        r@ == list@,
{
    let mut r: Vec<Board> = Vec::with_capacity(list.len());
    let mut i: usize = 0;
    while i < list.len()
        invariant
            0 <= i <= list.len(),
            r@ == list@.subrange(0, i as int),
        decreases list.len() - i,
    {
        r.push(list[i]);
        i = i + 1;
        proof {
            assert(r@ =~= list@.subrange(0, i as int));
        }
    }
    proof {
        assert(list@.subrange(0, list.len() as int) =~= list@);
    }
    r
}

/// Whether the list holds the board.
fn list_holds(list: &Vec<Board>, board: Board) -> (r: bool)
    ensures
        r == list@.contains(board),
{
    let mut i: usize = 0;
    while i < list.len()
        invariant
            0 <= i <= list.len(),
            forall|k: int| 0 <= k < i ==> list@[k] != board,
        decreases list.len() - i,
    {
        if list[i].0 == board.0 {
            return true;
        }
        i = i + 1;
    }
    false
}

impl SolutionDag {
    /// The board from which the search set out.
    pub closed spec fn spec_root(&self) -> Board {
        self.root
    }

    /// The board from which the search set out.
    pub fn root(&self) -> (r: Board)
        ensures
            r == self.spec_root(),
    {
        self.root
    }

    /// The graph of a search that sets out from `root`, with nothing looked
    /// at yet.
    pub fn new(root: Board) -> (r: SolutionDag)
        ensures
            r@ == Map::<Board, Option<Seq<Board>>>::empty(),
            r.spec_root() == root,
    {
        broadcast use vstd::std_specs::hash::group_hash_axioms;

        let r = SolutionDag { elements: HashMap::new(), root };
        assert(r@ =~= Map::<Board, Option<Seq<Board>>>::empty());
        r
    }

    /// The number of boards that were looked at.
    pub fn len(&self) -> (r: usize)
        ensures
            r == self@.len(),
            self@.dom().finite(),
    {
        broadcast use vstd::std_specs::hash::group_hash_axioms;

        proof {
            let words = self.elements@.dom();
            let f = |k: u64| Board(k);
            assert(words.map(f) =~= self@.dom()) by {
                assert forall|b: Board| self@.dom().contains(b) implies words.map(f).contains(
                    b,
                ) by {
                    assert(words.contains(b.0) && f(b.0) == b);
                }
            }
            assert(vstd::relations::injective_on(f, words));
            vstd::set_lib::lemma_map_size(words, self@.dom(), f);
        }
        self.elements.len()
    }

    /// What is known of the board: nothing where it was not looked at, else
    /// that it has no solution, or the boards that follow it, in the order in
    /// which they were noted.
    pub fn solutions(&self, board: Board) -> (r: Option<Option<Vec<Board>>>)
        ensures
            match r {
                None => !self@.contains_key(board),
                Some(None) => self@.contains_key(board) && self@[board] is None,
                Some(Some(list)) => self@.contains_key(board) && self@[board] == Some(list@),
            },
    {
        broadcast use vstd::std_specs::hash::group_hash_axioms;

        match self.elements.get(&board.0) {
            None => None,
            Some(None) => Some(None),
            Some(Some(list)) => Some(Some(copy_boards(list))),
        }
    }

    /// Whether the board or one of its images under the symmetries of the
    /// square is known to have a solution.
    pub fn has_solution(&self, board: Board) -> (r: bool)
        ensures
            r == exists|k: int|
                0 <= k < 8 && self@.contains_key(#[trigger] board.spec_symmetries()[k])
                    && self@[board.spec_symmetries()[k]] is Some,
    {
        let images = board.symmetries();
        let mut k: usize = 0;
        while k < 8
            invariant
                0 <= k <= 8,
                images@ == board.spec_symmetries(),
                forall|j: int|
                    0 <= j < k ==> !(self@.contains_key(#[trigger] board.spec_symmetries()[j])
                        && self@[board.spec_symmetries()[j]] is Some),
            decreases 8 - k,
        {
            match self.solutions(images[k]) {
                Some(Some(_)) => {
                    proof {
                        assert(self@.contains_key(board.spec_symmetries()[k as int]));
                    }
                    return true;
                },
                _ => {},
            }
            k = k + 1;
        }
        false
    }

    /// Notes that `board` follows `parent` on a way to the goal: it comes
    /// behind the boards that were noted before, unless it is among them.
    pub fn add_solution(&mut self, parent: Board, board: Board)
        requires
            !(old(self)@.contains_key(parent) && old(self)@[parent] is None),
        ensures
            final(self).spec_root() == old(self).spec_root(),
            final(self)@ == old(self)@.insert(
                parent,
                Some(followers_with(old(self)@, parent, board)),
            ),
            followers_distinct(old(self)@) ==> followers_distinct(final(self)@),
    {
        broadcast use vstd::std_specs::hash::group_hash_axioms;

        let ghost before = self@;
        let known = self.elements.remove(&parent.0);
        let list = match known {
            Some(Some(mut list)) => {
                proof {
                    assert(before.contains_key(parent));
                    assert(before[parent] == Some(list@));
                }
                if !list_holds(&list, board) {
                    let ghost shorter = list@;
                    list.push(board);
                    proof {
                        if shorter.no_duplicates() {
                            assert(list@.no_duplicates());
                        }
                    }
                }
                list
            },
            Some(None) => {
                // the caller has excluded a board that is noted to have no solution
                proof {
                    assert(before.contains_key(parent) && before[parent] is None);
                }
                Vec::new()
            },
            None => {
                let mut list: Vec<Board> = Vec::new();
                list.push(board);
                proof {
                    assert(!before.contains_key(parent));
                    assert(list@ =~= seq![board]);
                }
                list
            },
        };
        proof {
            assert(list@ == followers_with(before, parent, board));
            assert(followers_distinct(before) ==> list@.no_duplicates()) by {
                if followers_distinct(before) && before.contains_key(parent) {
                    assert(before[parent]->Some_0.no_duplicates());
                }
            }
        }
        self.elements.insert(parent.0, Some(list));
        proof {
            let after = before.insert(parent, Some(followers_with(before, parent, board)));
            assert forall|b: Board| self@.contains_key(b) == after.contains_key(b) by {}
            assert forall|b: Board| self@.contains_key(b) implies self@[b] == after[b] by {
                if b != parent {
                    assert(b.0 != parent.0);
                }
            }
            assert(self@ =~= after);
            if followers_distinct(before) {
                assert forall|b: Board| #[trigger]
                    after.contains_key(b) && after[b] is Some implies after[b]->Some_0.no_duplicates() by {
                    if b != parent {
                        assert(before.contains_key(b) && before[b] is Some);
                    }
                }
            }
        }
    }

    /// Notes that `board` has no solution.
    pub fn no_solution(&mut self, board: Board)
        ensures
            final(self).spec_root() == old(self).spec_root(),
            final(self)@ == old(self)@.insert(board, None),
            followers_distinct(old(self)@) ==> followers_distinct(final(self)@),
    {
        broadcast use vstd::std_specs::hash::group_hash_axioms;

        self.elements.insert(board.0, None);
        proof {
            let after = old(self)@.insert(board, None);
            assert forall|b: Board| self@.contains_key(b) == after.contains_key(b) by {}
            assert forall|b: Board| self@.contains_key(b) implies self@[b] == after[b] by {
                if b != board {
                    assert(b.0 != board.0);
                }
            }
            assert(self@ =~= after);
            if followers_distinct(old(self)@) {
                assert forall|b: Board| #[trigger]
                    after.contains_key(b) && after[b] is Some implies after[b]->Some_0.no_duplicates() by {
                    if b != board {
                        assert(old(self)@.contains_key(b) && old(self)@[b] is Some);
                    }
                }
            }
        }
    }

    /// The graph in the DOT language, for the boards of `nodes` in their
    /// order: a node for each of them that holds eight pegs at most and is
    /// noted with the boards that follow it, labelled with its picture, then
    /// an edge from each such board to each board that follows it.
    pub fn graph(&self, nodes: &[Board]) -> (r: String)
        ensures
            r@ == graph_text(self@, nodes@),
    {
        let mut s = String::new();
        s.append("graph solution {\n");
        let ghost head = s@;
        let mut i: usize = 0;
        proof {
            assert(nodes@.subrange(0, 0) =~= Seq::<Board>::empty());
            assert(s@ =~= head + node_lines(self@, nodes@.subrange(0, 0)));
        }
        while i < nodes.len()
            invariant
                0 <= i <= nodes.len(),
                s@ == head + node_lines(self@, nodes@.subrange(0, i as int)),
            decreases nodes.len() - i,
        {
            let b = nodes[i];
            proof {
                assert(nodes@.subrange(0, i + 1).drop_last() =~= nodes@.subrange(0, i as int));
                assert(nodes@.subrange(0, i + 1).last() == b);
            }
            if b.count_balls() <= 8 {
                match self.solutions(b) {
                    Some(Some(_)) => {
                        push_node_line(&mut s, b);
                    },
                    _ => {},
                }
            }
            i = i + 1;
            proof {
                assert(s@ =~= head + node_lines(self@, nodes@.subrange(0, i as int)));
            }
        }
        let ghost declared = s@;
        let mut i: usize = 0;
        proof {
            assert(nodes@.subrange(0, nodes.len() as int) =~= nodes@);
            assert(s@ =~= declared + edge_lines(self@, nodes@.subrange(0, 0)));
        }
        while i < nodes.len()
            invariant
                0 <= i <= nodes.len(),
                s@ == declared + edge_lines(self@, nodes@.subrange(0, i as int)),
            decreases nodes.len() - i,
        {
            let b = nodes[i];
            proof {
                assert(nodes@.subrange(0, i + 1).drop_last() =~= nodes@.subrange(0, i as int));
                assert(nodes@.subrange(0, i + 1).last() == b);
            }
            if b.count_balls() <= 8 {
                match self.solutions(b) {
                    Some(Some(list)) => {
                        push_edges(&mut s, b, &list);
                    },
                    _ => {},
                }
            }
            i = i + 1;
            proof {
                assert(s@ =~= declared + edge_lines(self@, nodes@.subrange(0, i as int)));
            }
        }
        s.append("}\n");
        proof {
            assert(s@ =~= graph_text(self@, nodes@));
        }
        s
    }
}

} // verus!
