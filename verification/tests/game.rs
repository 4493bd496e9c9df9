use schotten::components::Player;
use schotten::random_player::RandomPlayer;
use schotten::Game;

#[test]
fn random_game_runs() {
    // Two random strategies play a full game. Most runs reach a winner
    // well within this many turns; a stalled board simply stops making
    // moves, which is also fine for this smoke test.
    let mut game = Game::new();
    let strategy = RandomPlayer;

    let mut winner: Option<Player> = None;
    for _ in 0..200 {
        if let Some(p) = game.make_move(Player::build(0), &strategy) {
            winner = Some(p);
            break;
        }
        if let Some(p) = game.make_move(Player::build(1), &strategy) {
            winner = Some(p);
            break;
        }
    }

    if let Some(p) = winner {
        assert!(p == Player::build(0) || p == Player::build(1));
    }
}
