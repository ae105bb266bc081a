use solitaire_solver::dag::SolutionDag;
use solitaire_solver::radix_tree::RadixTree;
use solitaire_solver::Board;

#[test]
fn radix_tree_is_a_set() {
    let mut tree = RadixTree::new();
    assert_eq!(tree.len(), 0);
    assert!(!tree.contains(Board::default().0));
    assert!(tree.insert(Board::default().0));
    assert!(!tree.insert(Board::default().0));
    assert!(tree.insert(Board::solved().0));
    assert!(tree.insert(Board::empty().0));
    assert_eq!(tree.len(), 3);
    assert!(tree.contains(Board::default().0));
    assert!(tree.contains(Board::solved().0));
    assert!(tree.contains(0));
    assert!(!tree.contains(Board::full().0));
    // words with the same pegs on the cross are the same key
    assert!(tree.contains(Board::solved().0 | 1));
    assert!(!tree.insert(Board::solved().0 | 3));
    assert_eq!(tree.len(), 3);
}

#[test]
fn radix_tree_with_many_boards() {
    let mut tree = RadixTree::new();
    let mut boards = vec![];
    let mut x: u64 = 12345;
    for _ in 0..20_000 {
        x = x.wrapping_mul(6364136223846793005).wrapping_add(1442695040888963407);
        boards.push(Board::from_compressed_repr(x >> 31));
    }
    let mut fresh = 0;
    for b in &boards {
        if tree.insert(b.0) {
            fresh += 1;
        }
    }
    let mut unique = boards.clone();
    unique.sort();
    unique.dedup();
    assert_eq!(fresh, unique.len());
    assert_eq!(tree.len(), unique.len());
    for b in &boards {
        assert!(tree.contains(b.0));
    }
    let mut misses = 0;
    for _ in 0..1000 {
        x = x.wrapping_mul(6364136223846793005).wrapping_add(1442695040888963407);
        let b = Board::from_compressed_repr(x >> 31);
        if !tree.contains(b.0) {
            assert!(unique.binary_search(&b).is_err());
            misses += 1;
        }
    }
    assert!(misses > 900);
}

#[test]
fn radix_tree_lists_its_boards() {
    let mut tree = RadixTree::new();
    assert_eq!(tree.values(), vec![]);
    let boards = [Board::default(), Board::solved(), Board::empty(), Board::full()];
    for b in boards {
        tree.insert(b.0);
    }
    tree.insert(Board::solved().0);
    // boards with the same first bytes stand together, the byte that came first goes first
    assert_eq!(
        tree.values(),
        vec![Board::default().0, Board::full().0, Board::solved().0, Board::empty().0]
    );
    let mut words = tree.values();
    words.sort();
    words.dedup();
    assert_eq!(words.len(), 4);
    // a word with pegs off the cross comes back without them
    let mut other = RadixTree::new();
    other.insert(Board::solved().0 | 1);
    assert_eq!(other.values(), vec![Board::solved().0]);
}

#[test]
fn solution_dag_keeps_what_is_known() {
    let start = Board::default();
    let mut dag = SolutionDag::new(start);
    assert_eq!(dag.root(), start);
    assert_eq!(dag.len(), 0);
    assert_eq!(dag.solutions(start), None);
    assert!(!dag.has_solution(start));
    let moves = start.get_legal_moves();
    let a = start.mov(moves[0]);
    let b = start.mov(moves[1]);
    dag.add_solution(start, a);
    dag.add_solution(start, b);
    dag.add_solution(start, a);
    assert_eq!(dag.len(), 1);
    assert_eq!(dag.solutions(start), Some(Some(vec![a, b])));
    assert!(dag.has_solution(start));
    dag.no_solution(Board::full());
    assert_eq!(dag.len(), 2);
    assert_eq!(dag.solutions(Board::full()), Some(None));
    assert!(!dag.has_solution(Board::full()));
    // what is known of a board is known of its images
    dag.add_solution(a, a.mov(a.get_legal_moves()[0]));
    for image in a.symmetries() {
        assert!(dag.has_solution(image));
    }
    assert!(!dag.has_solution(b.mov(b.get_legal_moves()[0])));
    dag.no_solution(Board::full());
    assert_eq!(dag.len(), 3);
}

#[test]
fn solution_dag_remembers_the_order() {
    let root = Board::from_compressed_repr(0b111);
    let b = |k: u64| Board::from_compressed_repr(k);
    let mut dag = SolutionDag::new(root);
    dag.add_solution(root, b(9));
    dag.add_solution(root, b(4));
    dag.add_solution(root, b(9));
    dag.add_solution(root, b(6));
    dag.add_solution(root, b(4));
    assert_eq!(dag.solutions(root), Some(Some(vec![b(9), b(4), b(6)])));
}

#[test]
fn solution_dag_as_a_graph() {
    let goal = Board::solved();
    let before = goal.reverse_mov(goal.get_legal_inverse_moves()[0]);
    let earlier = before.reverse_mov(before.get_legal_inverse_moves()[0]);
    let mut dag = SolutionDag::new(earlier);
    assert_eq!(dag.graph(&[]), "graph solution {\n}\n");
    assert_eq!(dag.graph(&[goal, before]), "graph solution {\n}\n");
    dag.add_solution(earlier, before);
    dag.add_solution(before, goal);
    dag.no_solution(Board::empty());
    // a board with more than eight pegs is left out
    dag.add_solution(Board::default(), Board::full());
    let label = |b: Board| b.render().replace('\n', "\\n");
    let node = |b: Board| {
        format!("n{} [label=\"{}\", style=filled, fillcolor=green];\n", b.0, label(b))
    };
    let expected = format!(
        "graph solution {{\n{}{}n{} -- n{};\nn{} -- n{};\n}}\n",
        node(before),
        node(earlier),
        before.0,
        goal.0,
        earlier.0,
        before.0
    );
    let nodes = [before, Board::empty(), goal, Board::default(), earlier];
    assert_eq!(dag.graph(&nodes), expected);
    // the goal as it stands in the text
    dag.add_solution(goal, goal);
    let text = dag.graph(&[goal]);
    let a = "       .  .  .       \\n";
    let b = " .  .  .  .  .  .  . \\n";
    let c = " .  .  .  o  .  .  . \\n";
    assert_eq!(
        text,
        format!(
            "graph solution {{\nn134217728 [label=\"{a}{a}{b}{c}{b}{a}{a}\", style=filled, \
             fillcolor=green];\nn134217728 -- n134217728;\n}}\n"
        )
    );
}
