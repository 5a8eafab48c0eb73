use std::collections::HashSet;
use std::collections::VecDeque;
use std::hash::{DefaultHasher, Hash, Hasher};

use tile_solver::board::Board;
use tile_solver::bound::{recurse_bounded, solve_bounded, Bounds};
use tile_solver::digest::{fingerprint_bytes, fingerprint_glyphs};
use tile_solver::explore::recurse;
use tile_solver::graph::{is_node, no_estimate};
use tile_solver::pos::{Action, Pos};
use tile_solver::puzzle::{same_bytes, Outcome, Puzzle};
use tile_solver::route::{brute_force, first_victory, Route, RouteIterator, Winner};
use tile_solver::solve::{
    auto_play, best_solution, comes_before, solution_along, solve_exhaustive, Solution,
    CHASE_MAX_DEPTH,
};
use tile_solver::store::{add_node, attach, SearchError, StateGraph, EDGE_LIMIT, NODE_LIMIT};
use tile_solver::strategy::{
    auto_play_tensor, solve, winner_solution, Strategy, StrategyConfig, MAX_ROUTE_LENGTH,
};
use tile_solver::tensor::{BoardTensor, BLOCK, TARGET};

const CHASE: &str = "############\n#  K       #\n# ######## #\n#          #\n# @      $ #\n#          #\n############\n";

fn chase(text: &str) -> Board {
    let glyphs: Vec<char> = text.chars().collect();
    Board::from_text(&glyphs).unwrap()
}

fn shelf(player: Pos, targets: &[i32]) -> BoardTensor {
    let mut b = BoardTensor::with_player(player);
    for x in 0..12 {
        b.place(Pos::new(x, 11), BLOCK);
    }
    for x in targets {
        b.place(Pos::new(*x, 10), TARGET);
    }
    b
}

fn explored<S: Puzzle>(board: S, max_depth: usize) -> StateGraph<S> {
    let mut g: StateGraph<S> = StateGraph::new();
    recurse(&mut g, board, 0, None, 1, max_depth).unwrap();
    g
}

fn replay<S: Puzzle>(start: &S, actions: &[Action]) -> (Vec<Outcome>, S) {
    let mut state = start.snapshot();
    let mut outcomes = Vec::new();
    for a in actions {
        let (outcome, next) = state.apply(*a);
        outcomes.push(outcome);
        state = next;
    }
    (outcomes, state)
}

fn config(strategy: Strategy) -> StrategyConfig {
    StrategyConfig { strategy, max_depth: 6, max_score: Some(100), length: 3 }
}

#[test]
fn fingerprint_is_that_of_the_default_hasher() {
    let tiles: Vec<char> = "#@ $#".chars().collect();
    let mut hasher = DefaultHasher::new();
    tiles.hash(&mut hasher);
    assert_eq!(fingerprint_glyphs(&tiles), hasher.finish());
    let other: Vec<char> = "# @$#".chars().collect();
    assert_ne!(fingerprint_glyphs(&tiles), fingerprint_glyphs(&other));
    let bytes: Vec<u8> = vec![0, 1, 2, 3];
    let mut hasher = DefaultHasher::new();
    hasher.write(&bytes);
    assert_eq!(fingerprint_bytes(&bytes), hasher.finish());
    assert_ne!(fingerprint_bytes(&bytes), fingerprint_bytes(&vec![1, 0, 2, 3]));
}

#[test]
fn board_fingerprint_reads_the_tiles_only() {
    let a = chase(CHASE);
    let mut b = a.clone();
    b.hunters_pos = vec![];
    assert_eq!(a.fingerprint(), b.fingerprint());
    assert_eq!(a.fingerprint(), fingerprint_glyphs(&a.tiles));
    let t = BoardTensor::new_test_01();
    assert_eq!(t.fingerprint(), fingerprint_bytes(&t.tiles));
}

#[test]
fn graph_helpers_say_what_they_are_told() {
    assert!(is_node(4, 4));
    assert!(!is_node(4, 5));
    assert_eq!(no_estimate(), 0);
    assert!(same_bytes(&vec![1, 2], &vec![1, 2]));
    assert!(!same_bytes(&vec![1, 2], &vec![1, 3]));
    assert!(!same_bytes(&vec![1, 2], &vec![1, 2, 3]));
}

#[test]
fn new_graph_is_empty() {
    let g: StateGraph<Board> = StateGraph::new();
    assert_eq!(g.node_count(), 0);
    assert_eq!(g.graph.node_count(), 0);
    assert_eq!(g.graph.edge_count(), 0);
    assert!(g.boards.is_empty());
    assert!(g.table.is_empty());
    assert!(g.winners.is_empty());
}

#[test]
fn add_node_and_link_fill_the_graph() {
    let mut g: StateGraph<Board> = StateGraph::new();
    let first = chase(CHASE);
    let hash = first.fingerprint();
    assert_eq!(add_node(&mut g, first), 0);
    assert_eq!(g.node_count(), 1);
    assert_eq!(g.table.get(&hash), Some(&0));
    let (_, second) = g.boards[0].apply(Action::Right);
    let second_hash = second.fingerprint();
    assert_eq!(attach(&mut g, second, Some(0), 1), Ok(1));
    assert_eq!(g.node_count(), 2);
    assert_eq!(g.graph.edge_count(), 1);
    assert_eq!(g.graph.node_weight(petgraph::graph::NodeIndex::new(1)), Some(&second_hash));
    let edge = g.graph.raw_edges()[0].clone();
    assert_eq!((edge.source().index(), edge.target().index(), edge.weight), (0, 1, 1));
    assert_eq!(g.link(None, 1, 1), Ok(()));
    assert_eq!(g.graph.edge_count(), 1);
    assert_eq!(g.link(Some(1), 0, 2), Ok(()));
    assert_eq!(g.graph.edge_count(), 2);
    let back = g.graph.raw_edges()[1].clone();
    assert_eq!((back.source().index(), back.target().index(), back.weight), (1, 0, 2));
    assert!(NODE_LIMIT < EDGE_LIMIT);
}

#[test]
fn shortest_path_follows_the_edges_from_the_first_node() {
    let g = explored(chase("#######\n#@   $#\n#######\n"), 10);
    assert_eq!(g.node_count(), 5);
    assert_eq!(g.winners, vec![4]);
    assert_eq!(g.shortest_path(4), (4, vec![0, 1, 2, 3, 4]));
    assert_eq!(g.shortest_path(2), (2, vec![0, 1, 2]));
    assert_eq!(g.shortest_path(0), (0, vec![0]));
    assert_eq!(g.graph.edge_count(), 7);
}

#[test]
fn shortest_path_takes_the_cheaper_of_two_ways() {
    let start = shelf(Pos::new(3, 10), &[1, 5]);
    let g = explored(start, 1000);
    let tiles_of = |node: usize| g.boards[node].tiles.clone();
    let mut cheapest: std::collections::HashMap<Vec<u8>, i32> = std::collections::HashMap::new();
    let mut queue: Vec<(i32, BoardTensor)> = vec![(0, g.boards[0].snapshot())];
    while !queue.is_empty() {
        queue.sort_by_key(|(cost, _)| -*cost);
        let (cost, state) = queue.pop().unwrap();
        if cheapest.contains_key(&state.tiles) {
            continue;
        }
        cheapest.insert(state.tiles.clone(), cost);
        for k in 0..4 {
            let a = Action::from_index(k);
            let (outcome, next) = state.apply(a);
            if outcome == Outcome::Moved {
                queue.push((cost + BoardTensor::cost(a), next));
            }
        }
    }
    let winners: HashSet<usize> = g.winners.iter().cloned().collect();
    let mut compared = 0;
    let mut dearer_by_steps = 0;
    for node in 0..g.node_count() {
        if winners.contains(&node) {
            continue;
        }
        let (cost, nodes) = g.shortest_path(node);
        assert_eq!(Some(&cost), cheapest.get(&tiles_of(node)));
        assert_eq!(nodes[0], 0);
        assert_eq!(*nodes.last().unwrap(), node);
        if cost > (nodes.len() as i32) - 1 {
            dearer_by_steps += 1;
        }
        compared += 1;
    }
    assert_eq!(compared, cheapest.len());
    assert!(dearer_by_steps > 0);
}

#[test]
fn comes_before_is_the_order_of_a_dictionary() {
    assert!(comes_before(&vec![0, 1, 5], &vec![0, 2, 3]));
    assert!(!comes_before(&vec![0, 2, 3], &vec![0, 1, 5]));
    assert!(comes_before(&vec![0, 1], &vec![0, 1, 0]));
    assert!(!comes_before(&vec![0, 1, 0], &vec![0, 1]));
    assert!(!comes_before(&vec![0, 1], &vec![0, 1]));
    assert!(comes_before(&vec![], &vec![0]));
    assert!(!comes_before(&vec![], &vec![]));
}

#[test]
fn exhaustive_search_finds_the_shortest_way_out() {
    let solution = auto_play(chase(CHASE)).unwrap().unwrap();
    assert_eq!(solution.cost, 7);
    assert_eq!(solution.actions, vec![Action::Right; 7]);
    assert_eq!(solution.nodes.len(), 8);
    assert_eq!(solution.nodes[0], 0);
    assert_eq!(solution.states.len(), 8);
    assert_eq!(solution.states[0].player_pos, Pos::new(2, 4));
    assert_eq!(solution.states[7].player_pos, Pos::new(9, 4));
    assert_eq!(solution.states[7].player_pos, solution.states[7].exit_pos);
    assert_eq!(solution.states[3].hunters_pos, vec![Pos::new(5, 1)]);
    assert_eq!(CHASE_MAX_DEPTH, 1000);
}

#[test]
fn single_hunter_board_is_solved_with_the_fewest_moves() {
    let board = chase(CHASE);
    assert_eq!(board.width, 12);
    assert_eq!(board.tiles.len(), 12 * 7);
    assert_eq!(board.hunters_pos.len(), 1);
    let solution = auto_play(board.clone()).unwrap().unwrap();
    let (outcomes, _) = replay(&board, &solution.actions);
    assert_eq!(outcomes.last(), Some(&Outcome::Victory));
    assert!(outcomes[..outcomes.len() - 1].iter().all(|o| *o == Outcome::Moved));
    assert_eq!(solution.actions.len(), 7);
    let winner = brute_force(&board, 7).unwrap();
    assert_eq!(winner.step, 6);
    assert_eq!(winner.route.to_text(), "RRRRRRR");
    assert!(brute_force(&board, 6).is_none());
}

#[test]
fn adjacent_targets_need_shifts_only() {
    let board = shelf(Pos::new(3, 10), &[4, 5, 6]);
    let solution = solve_bounded(board.clone(), 5, Some(100)).unwrap().unwrap();
    assert_eq!(solution.cost, 3);
    assert_eq!(solution.actions, vec![Action::Right, Action::Right, Action::Right]);
    assert!(solution.actions.iter().all(|a| *a == Action::Left || *a == Action::Right));
    assert_eq!(solution.states.last().unwrap().amygdala_count, 0);
    let other = shelf(Pos::new(6, 10), &[4, 5]);
    let solution = solve_bounded(other, 4, None).unwrap().unwrap();
    assert_eq!(solution.cost, 2);
    assert_eq!(solution.actions, vec![Action::Left, Action::Left]);
}

#[test]
fn hunter_between_player_and_exit_leaves_no_way() {
    let board = chase("#####\n#@K$#\n#####\n");
    assert!(auto_play(board.clone()).unwrap().is_none());
    assert!(solve_bounded(board.clone(), 6, Some(100)).unwrap().is_none());
    assert!(brute_force(&board, 4).is_none());
}

#[test]
fn sealed_exit_gives_no_answer() {
    let board = chase("######\n#@ #$#\n######\n");
    let g = explored(board.clone(), 1000);
    assert_eq!(g.node_count(), 2);
    assert!(g.winners.is_empty());
    assert!(best_solution(&g).is_none());
    assert!(auto_play(board.clone()).unwrap().is_none());
    assert!(solve_bounded(board, 8, Some(100)).unwrap().is_none());
    let sealed = shelf(Pos::new(3, 10), &[]);
    assert!(solve_bounded(sealed.clone(), 4, Some(100)).unwrap().is_none());
    assert!(auto_play_tensor(&sealed, 3).is_none());
}

fn reach(board: &Board) -> (HashSet<u64>, Vec<u64>) {
    let mut seen: HashSet<u64> = HashSet::new();
    let mut wins: Vec<u64> = Vec::new();
    let mut queue: VecDeque<Board> = VecDeque::new();
    seen.insert(board.fingerprint());
    queue.push_back(board.clone());
    while let Some(state) = queue.pop_front() {
        for k in 0..4 {
            let (outcome, next) = state.apply(Action::from_index(k));
            match outcome {
                Outcome::Moved => {
                    if seen.insert(next.fingerprint()) {
                        queue.push_back(next);
                    }
                }
                Outcome::Victory => wins.push(next.fingerprint()),
                _ => {}
            }
        }
    }
    (seen, wins)
}

#[test]
fn exhaustive_search_has_one_node_for_each_state_in_reach() {
    let board = chase("########\n#  K   #\n# #### #\n#@    $#\n########\n");
    let g = explored(board.clone(), 1000);
    let (seen, wins) = reach(&board);
    let nodes: Vec<u64> = g.graph.node_weights().cloned().collect();
    let distinct: HashSet<u64> = nodes.iter().cloned().collect();
    let won: HashSet<u64> = wins.iter().cloned().collect();
    assert_eq!(distinct.len(), nodes.len());
    assert_eq!(nodes.len(), seen.len() + won.len());
    assert!(nodes.iter().all(|h| seen.contains(h) || won.contains(h)));
    assert!(seen.iter().all(|h| distinct.contains(h)));
    assert!(won.iter().all(|h| distinct.contains(h)));
    assert_eq!(g.boards.len(), nodes.len());
    assert!(g.boards.iter().zip(nodes.iter()).all(|(b, h)| b.fingerprint() == *h));
}

#[test]
fn exhaustive_search_repeats_no_state_that_it_expands() {
    let board = chase(CHASE);
    let g = explored(board.clone(), 1000);
    let (seen, wins) = reach(&board);
    let nodes: Vec<u64> = g.graph.node_weights().cloned().collect();
    let winners: HashSet<usize> = g.winners.iter().cloned().collect();
    let expanded: Vec<u64> =
        (0..nodes.len()).filter(|i| !winners.contains(i)).map(|i| nodes[i]).collect();
    let distinct: HashSet<u64> = expanded.iter().cloned().collect();
    assert_eq!(distinct.len(), expanded.len());
    assert_eq!(distinct, seen);
    assert_eq!(g.winners.len(), wins.len());
    assert!(g.winners.iter().all(|w| wins.contains(&nodes[*w])));
    assert_eq!(nodes.len(), 43);
    assert_eq!(nodes.iter().cloned().collect::<HashSet<u64>>().len(), 42);
}

#[test]
fn answer_is_the_cheapest_among_the_winners_and_the_same_each_time() {
    let board = chase(CHASE);
    let g = explored(board.clone(), 1000);
    let best = best_solution(&g).unwrap();
    assert!(!g.winners.is_empty());
    for w in g.winners.iter() {
        let (cost, nodes) = g.shortest_path(*w);
        assert!(best.cost <= cost);
        assert!(cost > best.cost || !comes_before(&nodes, &best.nodes));
    }
    let again = auto_play(board.clone()).unwrap().unwrap();
    let third = solve_exhaustive(board, 1000).unwrap().unwrap();
    assert_eq!(again.cost, best.cost);
    assert_eq!(again.nodes, best.nodes);
    assert_eq!(again.actions, best.actions);
    assert_eq!(third.nodes, best.nodes);
}

#[test]
fn branch_and_bound_is_no_worse_than_the_exhaustive_search() {
    let board = BoardTensor::new_test_01();
    let bounded = solve_bounded(board.clone(), 7, Some(100)).unwrap().unwrap();
    let full = solve_exhaustive(board, 1000).unwrap().unwrap();
    assert_eq!(full.cost, 7);
    assert!(bounded.cost <= full.cost);
    let board = chase(CHASE);
    let bounded = solve_bounded(board.clone(), 8, Some(100)).unwrap().unwrap();
    let full = solve_exhaustive(board, 1000).unwrap().unwrap();
    assert_eq!(full.cost, 7);
    assert!(bounded.cost <= full.cost);
    let corridor = chase("#######\n#@   $#\n#######\n");
    let bounded = solve_bounded(corridor.clone(), 5, Some(100)).unwrap().unwrap();
    let full = solve_exhaustive(corridor, 5).unwrap().unwrap();
    assert_eq!(full.cost, 4);
    assert_eq!(bounded.cost, 4);
}

#[test]
fn replay_of_a_solution_ends_in_its_last_state() {
    let board = chase(CHASE);
    let solution = auto_play(board.clone()).unwrap().unwrap();
    let (outcomes, end) = replay(&board, &solution.actions);
    assert_eq!(outcomes.last(), Some(&Outcome::Victory));
    let last = solution.states.last().unwrap();
    assert_eq!(end.tiles, last.tiles);
    assert_eq!(end.player_pos, last.player_pos);
    assert_eq!(end.hunters_pos, last.hunters_pos);
    let tensor = BoardTensor::new_test_01();
    let solution = solve_bounded(tensor.clone(), 7, Some(100)).unwrap().unwrap();
    assert_eq!(
        solution.actions,
        vec![
            Action::Right,
            Action::Up,
            Action::Right,
            Action::Left,
            Action::Right,
            Action::Left
        ]
    );
    assert_eq!(solution.cost, 7);
    let (outcomes, end) = replay(&tensor, &solution.actions);
    assert_eq!(outcomes.last(), Some(&Outcome::Victory));
    assert_eq!(end.tiles, solution.states.last().unwrap().tiles);
    assert_eq!(end.amygdala_count, 0);
    assert_eq!(solution.states[0].tiles, tensor.tiles);
}

#[test]
fn exhaustive_search_gives_up_at_the_depth_limit() {
    let board = chase(CHASE);
    assert_eq!(solve_exhaustive(board.clone(), 3).err(), Some(SearchError::TooDeep));
    assert_eq!(solve_exhaustive(board.clone(), 0).err(), Some(SearchError::TooDeep));
    let mut g: StateGraph<Board> = StateGraph::new();
    assert_eq!(recurse(&mut g, board, 0, None, 1, 2), Err(SearchError::TooDeep));
}

#[test]
fn branch_and_bound_stops_at_its_bounds() {
    let board = shelf(Pos::new(3, 10), &[4, 5, 6]);
    assert!(solve_bounded(board.clone(), 2, Some(100)).unwrap().is_none());
    assert!(solve_bounded(board.clone(), 3, Some(100)).unwrap().is_some());
    assert!(solve_bounded(board.clone(), 5, Some(2)).unwrap().is_none());
    assert!(solve_bounded(board.clone(), 5, Some(3)).unwrap().is_some());
    assert!(solve_bounded(board.clone(), 0, None).unwrap().is_none());
    let mut g: StateGraph<BoardTensor> = StateGraph::new();
    let mut winner: Option<(i32, Vec<usize>)> = None;
    let bounds = Bounds { max_depth: 4, max_score: 100 };
    assert_eq!(recurse_bounded(&mut g, board, 0, 0, 1, &mut winner, None, bounds), Ok(()));
    assert_eq!(winner.as_ref().map(|w| w.0), Some(3));
    let route = winner.unwrap();
    assert_eq!(route.1[0], 0);
    let solution: Solution<BoardTensor> = solution_along(&g, route);
    assert_eq!(solution.actions, vec![Action::Right; 3]);
}

#[test]
fn branch_and_bound_keeps_the_first_of_equal_routes() {
    let board = shelf(Pos::new(5, 10), &[4, 6]);
    let solution = solve_bounded(board, 3, Some(100)).unwrap().unwrap();
    assert_eq!(solution.cost, 3);
    assert_eq!(solution.actions, vec![Action::Left, Action::Right, Action::Right]);
}

#[test]
fn routes_count_up_from_the_first_action() {
    let route = Route::new(2);
    assert_eq!(route.r, vec![Action::Left, Action::Left]);
    let mut it = route.iter();
    let mut names = Vec::new();
    while let Some(r) = it.next() {
        names.push(r.to_text());
    }
    assert_eq!(
        names,
        vec![
            "LL", "RL", "UL", "DL", "LR", "RR", "UR", "DR", "LU", "RU", "UU", "DU", "LD", "RD",
            "UD", "DD"
        ]
    );
    assert_eq!(it.next().map(|r| r.to_text()), Some("RL".to_string()));
}

#[test]
fn route_iterator_steps_and_carries() {
    let mut it = RouteIterator::new(Route { r: vec![Action::Down, Action::Up, Action::Left] });
    assert!(it.feed_initial);
    assert!(it.advance());
    assert_eq!(it.current.to_text(), "LDL");
    assert!(it.inc(1));
    assert_eq!(it.current.to_text(), "LLR");
    assert!(it.inc(2));
    assert_eq!(it.current.to_text(), "LLU");
    let mut last = RouteIterator::new(Route { r: vec![Action::Down, Action::Down] });
    assert!(!last.advance());
    assert_eq!(last.current.to_text(), "LL");
    let mut only = Route::new(0).into_iter();
    assert_eq!(only.next().map(|r| r.r.len()), Some(0));
    assert!(only.next().is_none());
    let mut one = Route::new(1).into_iter();
    let mut count = 0;
    while one.next().is_some() {
        count += 1;
    }
    assert_eq!(count, 4);
}

#[test]
fn first_victory_gives_the_index_of_the_winning_action() {
    let board = shelf(Pos::new(3, 10), &[4, 5]);
    let route = |text: &str| Route {
        r: text
            .chars()
            .map(|c| match c {
                'L' => Action::Left,
                'R' => Action::Right,
                'U' => Action::Up,
                _ => Action::Down,
            })
            .collect(),
    };
    assert_eq!(first_victory(&board, &route("RR")), Some(1));
    assert_eq!(first_victory(&board, &route("LRRR")), Some(3));
    assert_eq!(first_victory(&board, &route("RL")), None);
    assert_eq!(first_victory(&board, &route("")), None);
    let hunted = chase("######\n#@K $#\n######\n");
    assert_eq!(first_victory(&hunted, &route("RRR")), None);
    let walled = chase("#####\n#@ $#\n#####\n");
    assert_eq!(first_victory(&walled, &route("LURR")), Some(3));
}

#[test]
fn brute_force_finds_the_earliest_win() {
    let board = shelf(Pos::new(3, 10), &[4, 5]);
    assert!(brute_force(&board, 1).is_none());
    let winner = brute_force(&board, 2).unwrap();
    assert_eq!((winner.step, winner.route.to_text()), (1, "RR".to_string()));
    let winner = auto_play_tensor(&board, 4).unwrap();
    assert_eq!((winner.step, winner.route.to_text()), (1, "RRLL".to_string()));
    assert!(Winner::beaten_by(&None, 7));
    let best = Some(Winner { step: 3, route: Route::new(4) });
    assert!(Winner::beaten_by(&best, 2));
    assert!(!Winner::beaten_by(&best, 3));
    assert!(!Winner::beaten_by(&best, 4));
}

#[test]
fn winner_solution_plays_the_route_up_to_the_win() {
    let board = shelf(Pos::new(3, 10), &[4]);
    let winner = Winner {
        step: 2,
        route: Route { r: vec![Action::Left, Action::Up, Action::Right, Action::Down] },
    };
    let solution = winner_solution(&board, &winner);
    assert_eq!(solution.actions, vec![Action::Left, Action::Up, Action::Right]);
    assert_eq!(solution.cost, 4);
    assert_eq!(solution.states.len(), 4);
    assert!(solution.nodes.is_empty());
    assert_eq!(solution.states[0].tiles, board.tiles);
    assert_eq!(solution.states[1].player_pos, Pos::new(2, 10));
    let stuck = shelf(Pos::new(0, 10), &[5]);
    let winner = Winner { step: 0, route: Route { r: vec![Action::Left] } };
    let solution = winner_solution(&stuck, &winner);
    assert_eq!(solution.states[1].tiles, stuck.tiles);
    assert_eq!(solution.cost, 1);
}

#[test]
fn solve_runs_the_strategy_that_is_asked_for() {
    let board = shelf(Pos::new(3, 10), &[4, 5, 6]);
    let full = solve(board.clone(), config(Strategy::Exhaustive)).unwrap_err();
    assert_eq!(full, SearchError::TooDeep);
    let mut deep = config(Strategy::Exhaustive);
    deep.max_depth = 1000;
    let full = solve(board.clone(), deep).unwrap().unwrap();
    assert_eq!(full.cost, 3);
    let bounded = solve(board.clone(), config(Strategy::BranchAndBound)).unwrap().unwrap();
    assert_eq!(bounded.cost, 3);
    assert_eq!(bounded.actions, vec![Action::Right; 3]);
    let brute = solve(board.clone(), config(Strategy::BruteForce)).unwrap().unwrap();
    assert_eq!(brute.cost, 3);
    assert_eq!(brute.actions, vec![Action::Right; 3]);
    assert_eq!(brute.states.len(), 4);
    let mut short = config(Strategy::BruteForce);
    short.length = 2;
    assert!(solve(board.clone(), short).unwrap().is_none());
    let mut long = config(Strategy::BruteForce);
    long.length = MAX_ROUTE_LENGTH + 1;
    assert_eq!(solve(board, long).unwrap_err(), SearchError::TooDeep);
}

#[test]
fn tensor_actions_are_blocked_moved_or_won() {
    let board = shelf(Pos::new(0, 10), &[1]);
    let (outcome, same) = board.apply(Action::Left);
    assert_eq!(outcome, Outcome::Blocked);
    assert_eq!(same.tiles, board.tiles);
    assert_eq!(same.player_pos, board.player_pos);
    assert_eq!(same.amygdala_count, board.amygdala_count);
    let (outcome, next) = board.apply(Action::Up);
    assert_eq!(outcome, Outcome::Moved);
    assert_ne!(next.tiles, board.tiles);
    assert_eq!(next.transitioned_via, Some(Action::Up));
    assert_eq!(board.apply(Action::Right).0, Outcome::Victory);
    assert_eq!(BoardTensor::cost(Action::Left), 1);
    assert_eq!(BoardTensor::cost(Action::Right), 1);
    assert_eq!(BoardTensor::cost(Action::Up), 2);
    assert_eq!(BoardTensor::cost(Action::Down), 2);
    assert_eq!(Board::cost(Action::Up), 1);
    let copy = board.snapshot();
    assert_eq!(copy.tiles, board.tiles);
}

#[test]
fn chase_actions_are_blocked_moved_dead_or_won() {
    let board = chase("######\n#K@$ #\n######\n");
    let (outcome, same) = board.apply(Action::Up);
    assert_eq!(outcome, Outcome::Blocked);
    assert_eq!(same.tiles, board.tiles);
    assert_eq!(same.hunters_pos, board.hunters_pos);
    assert_eq!(board.apply(Action::Left).0, Outcome::Dead);
    assert_eq!(board.apply(Action::Right).0, Outcome::Victory);
    let open = chase("########\n#@    $#\n########\n");
    let (outcome, next) = open.apply(Action::Right);
    assert_eq!(outcome, Outcome::Moved);
    assert_eq!(next.player_pos, Pos::new(2, 1));
    assert_eq!(open.player_pos, Pos::new(1, 1));
}
