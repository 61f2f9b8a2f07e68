use nogors::computer::Computer;
use nogors::game_board::GameBoard;
use nogors::nogo::Nogo;
use nogors::nogo::NogoError;
use nogors::nogo::Player;
use nogors::session::read_input;
use nogors::session::Game;
use nogors::session::Input;
use nogors::session::Turn;

fn rows(lines: &[&str]) -> Vec<Vec<char>> {
    lines.iter().map(|l| l.chars().collect()).collect()
}

#[test]
fn test_change_player() {
    let mut current_player = Player::O;

    match current_player {
        Player::O => assert!(true),
        Player::X => panic!("not equal"),
    }

    Nogo::change_player(&mut current_player);

    match current_player {
        Player::O => panic!("not equal"),
        Player::X => assert!(true),
    }
}

#[test]
fn change_player_twice_gives_the_same_player() {
    let mut player = Player::X;
    Nogo::change_player(&mut player);
    assert_eq!(player, Player::O);
    Nogo::change_player(&mut player);
    assert_eq!(player, Player::X);
    assert_eq!(Player::O.other(), Player::X);
    assert_eq!(Player::X.other(), Player::O);
    assert_eq!(Player::O.symbol(), 'O');
    assert_eq!(Player::X.symbol(), 'X');
}

#[test]
fn start_makes_an_empty_board_and_fresh_generators() {
    let nogo = Nogo::with_players('c', 'h', 4, 6);
    let game = nogo.start().unwrap();
    assert_eq!(game.current_player(), Player::O);
    assert_eq!(game.board().get_height(), 4);
    assert_eq!(game.board().get_width(), 6);
    assert_eq!(game.board().lines(), &rows(&["......", "......", "......", "......"]));
    let o = game.computer(Player::O).unwrap();
    assert_eq!((o.get_row(), o.get_column(), o.get_counter()), (1, 4, 0));
    assert!(game.computer(Player::X).is_none());
    let nogo = Nogo::with_players('h', 'c', 1000, 1000);
    let game = nogo.start().unwrap();
    assert!(game.computer(Player::O).is_none());
    let x = game.computer(Player::X).unwrap();
    assert_eq!((x.get_row(), x.get_column(), x.get_counter()), (2, 10, 0));
}

#[test]
fn start_rejects_dimensions_out_of_range() {
    for (h, w) in [(3, 4), (4, 3), (1001, 4), (4, 1001), (0, 0)] {
        for (a, b) in [('h', 'h'), ('c', 'c')] {
            let nogo = Nogo::with_players(a, b, h, w);
            assert_eq!(nogo.start().err(), Some(NogoError::InvalidDimension));
        }
    }
}

#[test]
fn turn_of_a_human_asks_for_input() {
    let nogo = Nogo::with_players('h', 'c', 4, 4);
    let mut game = nogo.start().unwrap();
    assert_eq!(game.turn(), Turn::Human);
    assert_eq!(game.turn(), Turn::Human);
    assert_eq!(game.current_player(), Player::O);
    let x = game.computer(Player::X).unwrap();
    assert_eq!(x.get_counter(), 0);
}

#[test]
fn turn_of_a_computer_gives_its_move_and_moves_it_on() {
    let nogo = Nogo::with_players('c', 'c', 7, 7);
    let mut game = nogo.start().unwrap();
    assert_eq!(game.turn(), Turn::Generated(1, 4));
    assert_eq!(game.computer(Player::O).unwrap().get_counter(), 1);
    assert_eq!(game.computer(Player::X).unwrap().get_counter(), 0);
    assert_eq!(game.play(1, 4), Ok(None));
    assert_eq!(game.current_player(), Player::X);
    // Player X starts at row 2, column 10, which is column 3 on this board.
    assert_eq!(game.turn(), Turn::Generated(2, 3));
    assert_eq!(game.computer(Player::O).unwrap().get_counter(), 1);
    assert_eq!(game.computer(Player::X).unwrap().get_counter(), 1);
    assert_eq!(game.play(2, 3), Ok(None));
    assert_eq!(game.turn(), Turn::Generated(2, 5));
    assert_eq!(game.board().lines()[1][4], 'O');
    assert_eq!(game.board().lines()[2][3], 'X');
}

#[test]
fn play_rejects_a_bad_move_and_keeps_the_turn() {
    let nogo = Nogo::with_players('h', 'h', 4, 5);
    let mut game = nogo.start().unwrap();
    assert_eq!(game.play(4, 0), Err(NogoError::InvalidPosition));
    assert_eq!(game.play(0, 5), Err(NogoError::InvalidPosition));
    assert_eq!(game.current_player(), Player::O);
    assert_eq!(game.play(0, 0), Ok(None));
    assert_eq!(game.current_player(), Player::X);
    assert_eq!(game.play(0, 0), Err(NogoError::PositionTaken));
    assert_eq!(game.current_player(), Player::X);
    assert_eq!(game.board().lines(), &rows(&["O....", ".....", ".....", "....."]));
}

#[test]
fn play_ends_the_game_when_a_group_dies() {
    let nogo = Nogo::with_players('h', 'h', 4, 4);
    let mut game = nogo.start().unwrap();
    assert_eq!(game.play(0, 0), Ok(None)); // O
    assert_eq!(game.play(0, 1), Ok(None)); // X
    assert_eq!(game.play(3, 3), Ok(None)); // O
    // X closes in on the stone in the corner, whose owner loses.
    assert_eq!(game.play(1, 0), Ok(Some(Player::X)));
    assert_eq!(game.board().check_win(), Some((0, 0)));
    assert_eq!(game.board().get(0, 0), 'O');
    assert_eq!(game.current_player(), Player::X);
}

#[test]
fn play_lets_a_player_lose_by_the_own_move() {
    let nogo = Nogo::with_players('h', 'h', 4, 4);
    let mut game = nogo.start().unwrap();
    assert_eq!(game.play(0, 1), Ok(None)); // O
    assert_eq!(game.play(3, 3), Ok(None)); // X
    assert_eq!(game.play(1, 0), Ok(None)); // O
    // X places the stone in the corner between the two: X has lost.
    assert_eq!(game.play(0, 0), Ok(Some(Player::O)));
    assert_eq!(game.board().check_win(), Some((0, 0)));
    assert_eq!(game.board().get(0, 0), 'X');
}

#[test]
fn save_text_is_the_header_and_the_rows() {
    let nogo = Nogo::with_players('h', 'h', 4, 5);
    let mut game = nogo.start().unwrap();
    assert_eq!(game.save_text(), "4 5 0 0 0 0 0 0 0\n.....\n.....\n.....\n.....\n");
    game.play(1, 2).unwrap();
    assert_eq!(game.save_text(), "4 5 1 0 0 0 0 0 0\n.....\n..O..\n.....\n.....\n");
    let nogo = Nogo::with_players('c', 'c', 4, 12);
    let mut game = nogo.start().unwrap();
    assert_eq!(
        game.save_text(),
        "4 12 0 1 4 0 2 10 0\n............\n............\n............\n............\n"
    );
    assert_eq!(game.turn(), Turn::Generated(1, 4));
    game.play(1, 4).unwrap();
    assert_eq!(game.turn(), Turn::Generated(2, 10));
    game.play(2, 10).unwrap();
    assert_eq!(
        game.save_text(),
        "4 12 0 2 5 1 3 11 1\n............\n....O.......\n..........X.\n............\n"
    );
}

#[test]
fn resume_reads_what_was_saved() {
    let mut nogo = Nogo::with_players('c', 'h', 0, 0);
    let game = nogo
        .resume("6 5 1 4 6 2 0 0 0\nXX.XX\nXXOXX\nOOOOO\nXXOXX\nXXOXX\nXX.XX\n")
        .unwrap();
    assert_eq!(nogo.get_height(), 6);
    assert_eq!(nogo.get_width(), 5);
    assert_eq!(game.current_player(), Player::X);
    assert_eq!(
        game.board().lines(),
        &rows(&["XX.XX", "XXOXX", "OOOOO", "XXOXX", "XXOXX", "XX.XX"])
    );
    let o = game.computer(Player::O).unwrap();
    assert_eq!((o.get_row(), o.get_column(), o.get_counter()), (4, 6, 2));
    assert!(game.computer(Player::X).is_none());
}

#[test]
fn resume_ignores_the_numbers_of_a_human() {
    let text = "4 4 0 9 9 9 8 8 8\n....\n....\n....\n....\n";
    let mut nogo = Nogo::with_players('h', 'h', 0, 0);
    let game = nogo.resume(text).unwrap();
    assert!(game.computer(Player::O).is_none());
    assert!(game.computer(Player::X).is_none());
    assert_eq!(game.save_text(), "4 4 0 0 0 0 0 0 0\n....\n....\n....\n....\n");
}

#[test]
fn resume_rejects_a_corrupt_text() {
    let corrupt = Some(NogoError::CorruptFile);
    let board = "....\n....\n....\n....\n";
    let cases = [
        String::new(),
        String::from("4 4 0 1 4 0 2 10 0"),
        format!("4 4 0 1 4 0 2 10\n{}", board),
        format!("4 4 0 1 4 0 2 ten 0\n{}", board),
        format!("4 4 2 1 4 0 2 10 0\n{}", board),
        format!("4 4 00 1 4 0 2 10 0\n{}", board),
        format!("4 4 +1 1 4 0 2 10 0\n{}", board),
        format!("5 4 0 1 4 0 2 10 0\n{}", board),
        format!("4 5 0 1 4 0 2 10 0\n{}", board),
        format!("\n4 4 0 1 4 0 2 10 0\n{}", board),
        String::from("4 4 0 1 4 0 2 10 0\n....\n....\n....\n"),
        String::from("4 4 0 1 4 0 2 10 0\n....\n....\n...\n....\n"),
        String::from("4 4 0 1 4 0 2 10 0\n....\n..x.\n....\n....\n"),
        String::from("3 4 0 1 4 0 2 10 0\n....\n....\n....\n"),
    ];
    for text in cases.iter() {
        for (a, b) in [('h', 'h'), ('c', 'c')] {
            let mut nogo = Nogo::with_players(a, b, 7, 8);
            assert_eq!(nogo.resume(text).err(), corrupt, "text {:?}", text);
            assert_eq!(nogo.get_height(), 7);
            assert_eq!(nogo.get_width(), 8);
        }
    }
    let mut nogo = Nogo::with_players('c', 'c', 7, 8);
    assert!(nogo.resume(&format!("4 4 0 1 4 0 2 10 0\n{}", board)).is_ok());
    assert!(nogo.resume(&format!("+4 04 1 1 4 0 2 10 0\n{}", board)).is_ok());
    assert!(nogo.resume(&format!(" 4 4 1 1 4 0 2 10 0 \n\n{}\n", board)).is_ok());
}

#[test]
fn saved_game_goes_on_as_if_never_stopped() {
    let nogo = Nogo::with_players('c', 'c', 9, 11);
    let mut game = nogo.start().unwrap();
    for _ in 0..7 {
        match game.turn() {
            Turn::Generated(h, w) => {
                let _ = game.play(h, w);
            },
            other => panic!("no move: {:?}", other),
        }
    }
    let text = game.save_text();
    let mut again = Nogo::with_players('c', 'c', 0, 0);
    let mut resumed = again.resume(&text).unwrap();
    assert_eq!(again.get_height(), 9);
    assert_eq!(again.get_width(), 11);
    assert_eq!(resumed.save_text(), text);
    assert_eq!(resumed.current_player(), game.current_player());
    assert_eq!(resumed.board().lines(), game.board().lines());
    for player in [Player::O, Player::X] {
        let mut a: Computer = game.computer(player).unwrap();
        let mut b: Computer = resumed.computer(player).unwrap();
        for _ in 0..60 {
            assert_eq!(a.get_and_generate_move(), b.get_and_generate_move());
            assert_eq!(a.get_row(), b.get_row());
            assert_eq!(a.get_column(), b.get_column());
            assert_eq!(a.get_counter(), b.get_counter());
        }
    }
    for _ in 0..30 {
        let t = game.turn();
        assert_eq!(t, resumed.turn());
        if let Turn::Generated(h, w) = t {
            assert_eq!(game.play(h, w), resumed.play(h, w));
        }
        assert_eq!(game.save_text(), resumed.save_text());
    }
}

#[test]
fn turn_tells_when_a_generator_cannot_go_on() {
    let text = format!("4 4 0 1 4 {} 0 0 0\n....\n....\n....\n....\n", usize::MAX);
    let mut nogo = Nogo::with_players('c', 'h', 0, 0);
    let mut game = nogo.resume(&text).unwrap();
    assert_eq!(game.turn(), Turn::Stuck);
    assert_eq!(game.computer(Player::O).unwrap().get_counter(), usize::MAX);
    assert_eq!(game.save_text(), text);
}

#[test]
fn read_input_tells_moves_from_requests_to_save() {
    assert!(matches!(read_input("3 4\n"), Input::Move(3, 4)));
    assert!(matches!(read_input("  0   12 and more\n"), Input::Move(0, 12)));
    assert!(matches!(read_input("+3 004"), Input::Move(3, 4)));
    match read_input("w saved.txt\n") {
        Input::Save(name) => assert_eq!(name, "saved.txt"),
        other => panic!("no save: {:?}", other),
    }
    match read_input("w 3 4") {
        Input::Save(name) => assert_eq!(name, "3"),
        other => panic!("no save: {:?}", other),
    }
    assert!(matches!(read_input(""), Input::Incomplete));
    assert!(matches!(read_input("\n"), Input::Incomplete));
    assert!(matches!(read_input("7\n"), Input::Incomplete));
    assert!(matches!(read_input("w\n"), Input::Incomplete));
    assert!(matches!(read_input("a 4\n"), Input::Invalid));
    assert!(matches!(read_input("4 b\n"), Input::Invalid));
    assert!(matches!(read_input("-1 4\n"), Input::Invalid));
    assert!(matches!(read_input("W file\n"), Input::Invalid));
    assert!(matches!(read_input("ww file\n"), Input::Invalid));
    let big = format!("1 {}0", usize::MAX);
    assert!(matches!(read_input(&big), Input::Invalid));
}

#[test]
fn board_of_a_game_can_be_asked_like_any_board() {
    let nogo = Nogo::with_players('h', 'h', 5, 4);
    let mut game: Game = nogo.start().unwrap();
    game.play(2, 2).unwrap();
    let board: &GameBoard = game.board();
    assert_eq!(board.get(2, 2), 'O');
    assert_eq!(board.check_liberty(2, 2), true);
    assert_eq!(board.check_win(), None);
}
