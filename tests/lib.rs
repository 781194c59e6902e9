use minesweeper_core::{Board, Difficulty, Game, Point};

fn print_board(board: Board) {
    for x in 0..board.get_width() {
        let mut line = String::new();
        for y in 0..board.get_height() {
            match board.cell_at(Point { x, y }) {
                Some(cell) => {
                    let number = cell.number;
                    if !cell.cleared {
                        line.push_str("[XX]");
                    } else if number == -1 {
                        line.push_str("[ *]");
                    } else if number == 0 {
                        line.push_str("[  ]");
                    } else {
                        line.push_str(&format!("[ {}]", number));
                    }
                }
                None => continue,
            }
        }
        println!("{} ", line);
    }
}

#[test]
fn test_drawing_hard() {
    let mut game = Game::new(Difficulty::Hard);
    game.clear_all();
    print_board(game.board);
}

#[test]
fn game() {
    let mut game = Game::new(Difficulty::Easy);
    assert!(!game.is_game_over());

    for x in 0..game.board.get_width() {
        if game.is_game_over() {
            break;
        }
        for y in 0..game.board.get_height() {
            if game.board.cell_at(Point { x, y }).unwrap().is_mine() {
                game.selected_at(Point { x, y });
                break;
            }
        }
    }
    let game_over = game.is_game_over();

    assert!(game_over);
}
