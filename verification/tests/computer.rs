use nogors::computer::Computer;
use nogors::nogo::Nogo;
use nogors::nogo::NogoError;
use nogors::nogo::Player;

// First moves a computer O should try on a 7x7 board.
#[test]
fn test_computer() {
    let mut computer = Computer::from_parts(1, 4, 29, 7, 7, 0, 1 * 7 + 4);

    assert_eq!((1, 4), computer.get_and_generate_move());
    assert_eq!((2, 5), computer.get_and_generate_move());
    assert_eq!((4, 6), computer.get_and_generate_move());
    assert_eq!((5, 6), computer.get_and_generate_move());
    assert_eq!((5, 0), computer.get_and_generate_move());
    assert_eq!((5, 5), computer.get_and_generate_move());
    assert_eq!((6, 6), computer.get_and_generate_move());
    assert_eq!((1, 0), computer.get_and_generate_move());
    assert_eq!((2, 0), computer.get_and_generate_move());
    assert_eq!((2, 1), computer.get_and_generate_move());
    assert_eq!((2, 6), computer.get_and_generate_move());
    assert_eq!((3, 0), computer.get_and_generate_move());
    assert_eq!((5, 1), computer.get_and_generate_move());
}

#[test]
fn new_gives_player_o_its_constants() {
    let nogo = Nogo::with_players('c', 'h', 7, 7);
    let mut computer = Computer::new(&nogo, Player::O).unwrap();
    assert_eq!(computer.get_row(), 1);
    assert_eq!(computer.get_column(), 4);
    assert_eq!(computer.get_counter(), 0);
    let moves: Vec<(usize, usize)> = (0..13).map(|_| computer.get_and_generate_move()).collect();
    assert_eq!(
        moves,
        vec![
            (1, 4), (2, 5), (4, 6), (5, 6), (5, 0), (5, 5), (6, 6), (1, 0), (2, 0), (2, 1),
            (2, 6), (3, 0), (5, 1),
        ]
    );
    assert_eq!(computer.get_counter(), 13);
}

#[test]
fn new_gives_player_x_its_constants() {
    let nogo = Nogo::with_players('h', 'c', 9, 20);
    let mut computer = Computer::new(&nogo, Player::X).unwrap();
    assert_eq!(computer.get_row(), 2);
    assert_eq!(computer.get_column(), 10);
    assert_eq!(computer.get_counter(), 0);
    // The base is 2 * 20 + 10 = 50; the fifth step sends the generator to
    // 50 + 1 * 17 = 67, which is row 3, column 7 on a board 20 wide.
    let moves: Vec<(usize, usize)> = (0..7).map(|_| computer.get_and_generate_move()).collect();
    assert_eq!(moves, vec![(2, 10), (3, 11), (5, 12), (6, 12), (6, 13), (3, 7), (4, 8)]);
    assert_eq!(computer.get_row(), 3 + 1 + 2);
    assert_eq!(computer.get_column(), 7 + 1 + 1);
}

#[test]
fn new_gives_a_human_no_generator() {
    let nogo = Nogo::with_players('h', 'c', 7, 7);
    assert!(Computer::new(&nogo, Player::O).is_none());
    assert!(Computer::new(&nogo, Player::X).is_some());
    let nogo = Nogo::with_players('c', 'h', 7, 7);
    assert!(Computer::new(&nogo, Player::O).is_some());
    assert!(Computer::new(&nogo, Player::X).is_none());
}

#[test]
fn counters_are_kept_unwrapped() {
    let mut computer = Computer::from_parts(1, 4, 29, 4, 4, 0, 1 * 4 + 4);
    assert_eq!(computer.get_and_generate_move(), (1, 0));
    assert_eq!((computer.get_row(), computer.get_column(), computer.get_counter()), (2, 5, 1));
    assert_eq!(computer.get_and_generate_move(), (2, 1));
    assert_eq!((computer.get_row(), computer.get_column(), computer.get_counter()), (4, 6, 2));
    assert_eq!(computer.get_and_generate_move(), (0, 2));
    assert_eq!((computer.get_row(), computer.get_column(), computer.get_counter()), (5, 6, 3));
    assert_eq!(computer.get_and_generate_move(), (1, 2));
    assert_eq!((computer.get_row(), computer.get_column(), computer.get_counter()), (5, 7, 4));
    assert_eq!(computer.get_and_generate_move(), (1, 3));
    // 8 + 1 * 29 = 37 = 9 * 4 + 1
    assert_eq!((computer.get_row(), computer.get_column(), computer.get_counter()), (9, 1, 5));
}

#[test]
fn fifth_step_wraps_at_the_modulus() {
    // The counter stands at 4; the next is 5 * 40000, so the step is
    // (11 + 40000 * 29) mod 1000003 = 1160011 - 1000003 = 160008.
    let mut computer = Computer::from_parts(0, 0, 29, 7, 7, 199_999, 11);
    computer.generate_next_move();
    assert_eq!(computer.get_counter(), 200_000);
    assert_eq!(computer.get_row(), 160_008 / 7);
    assert_eq!(computer.get_column(), 160_008 % 7);
    assert_eq!((computer.get_row(), computer.get_column()), (22_858, 2));
}

#[test]
fn fifth_step_does_not_overflow_on_large_counters() {
    let counter = usize::MAX - 1 - (usize::MAX - 1) % 5 - 1;
    let mut computer = Computer::from_parts(3, 3, usize::MAX, 7, 7, counter, usize::MAX);
    assert!(computer.can_generate());
    assert_eq!(computer.get_and_generate_move(), (3, 3));
    let steps = ((counter + 1) / 5) as u128;
    let n = (usize::MAX as u128 + steps * usize::MAX as u128) % 1_000_003;
    assert_eq!(computer.get_row() as u128, n / 7);
    assert_eq!(computer.get_column() as u128, n % 7);
}

#[test]
fn can_generate_tells_when_the_state_would_not_fit() {
    assert!(Computer::from_parts(1, 4, 29, 7, 7, 0, 11).can_generate());
    assert!(!Computer::from_parts(1, 4, 29, 0, 7, 0, 11).can_generate());
    assert!(!Computer::from_parts(1, 4, 29, 7, 0, 0, 11).can_generate());
    assert!(!Computer::from_parts(1, 4, 29, 7, 7, usize::MAX, 11).can_generate());
    // The next counter is 1: row and column go up by one.
    assert!(!Computer::from_parts(usize::MAX, 4, 29, 7, 7, 0, 11).can_generate());
    assert!(!Computer::from_parts(1, usize::MAX, 29, 7, 7, 0, 11).can_generate());
    assert!(Computer::from_parts(usize::MAX - 1, usize::MAX - 1, 29, 7, 7, 0, 11).can_generate());
    // The next counter is 2: the row goes up by two.
    assert!(!Computer::from_parts(usize::MAX - 1, 4, 29, 7, 7, 1, 11).can_generate());
    assert!(Computer::from_parts(usize::MAX - 2, 4, 29, 7, 7, 1, 11).can_generate());
    // The next counter is 3: only the row moves.
    assert!(Computer::from_parts(1, usize::MAX, 29, 7, 7, 2, 11).can_generate());
    assert!(!Computer::from_parts(usize::MAX, 4, 29, 7, 7, 2, 11).can_generate());
    // The next counter is 4: only the column moves.
    assert!(Computer::from_parts(usize::MAX, 4, 29, 7, 7, 3, 11).can_generate());
    assert!(!Computer::from_parts(1, usize::MAX, 29, 7, 7, 3, 11).can_generate());
    // The next counter is 5: row and column are set anew.
    assert!(Computer::from_parts(usize::MAX, usize::MAX, 29, 7, 7, 4, 11).can_generate());
}

#[test]
fn load_restores_the_generator_of_each_player() {
    let nogo = Nogo::with_players('c', 'c', 0, 0);
    let line = "7 9 1 4 6 2 12 30 7";
    let mut o = Computer::load(&nogo, line, Player::O).unwrap().unwrap();
    assert_eq!((o.get_row(), o.get_column(), o.get_counter()), (4, 6, 2));
    let mut x = Computer::load(&nogo, line, Player::X).unwrap().unwrap();
    assert_eq!((x.get_row(), x.get_column(), x.get_counter()), (12, 30, 7));
    // Height 7 and width 9 are those of the line, and so is the base.
    assert_eq!(o.get_and_generate_move(), (4, 6));
    assert_eq!(o.get_and_generate_move(), (5, 6));
    assert_eq!(o.get_and_generate_move(), (5, 7));
    // (1 * 9 + 4 + 1 * 29) = 42 = 4 * 9 + 6
    assert_eq!((o.get_row(), o.get_column(), o.get_counter()), (4, 6, 5));
    assert_eq!(x.get_and_generate_move(), (5, 3));
    assert_eq!(x.get_and_generate_move(), (6, 3));
    assert_eq!(x.get_and_generate_move(), (6, 4));
    // (2 * 9 + 10 + 2 * 17) = 62 = 6 * 9 + 8
    assert_eq!((x.get_row(), x.get_column(), x.get_counter()), (6, 8, 10));
}

#[test]
fn load_continues_as_if_never_stopped() {
    let nogo = Nogo::with_players('c', 'h', 7, 7);
    let mut running = Computer::new(&nogo, Player::O).unwrap();
    for _ in 0..8 {
        running.get_and_generate_move();
    }
    let line = format!(
        "7 7 0 {} {} {} 0 0 0",
        running.get_row(),
        running.get_column(),
        running.get_counter()
    );
    let blank = Nogo::with_players('c', 'h', 0, 0);
    let mut loaded = Computer::load(&blank, &line, Player::O).unwrap().unwrap();
    for _ in 0..40 {
        assert_eq!(loaded.get_and_generate_move(), running.get_and_generate_move());
    }
    assert_eq!(loaded.get_counter(), 48);
}

#[test]
fn load_ignores_the_numbers_of_a_human() {
    let nogo = Nogo::with_players('h', 'c', 0, 0);
    assert!(Computer::load(&nogo, "7 7 0 0 0 0 2 10 0", Player::O).unwrap().is_none());
    assert!(Computer::load(&nogo, "7 7 0 5 5 5 2 10 0", Player::O).unwrap().is_none());
    assert!(Computer::load(&nogo, "7 7 0 5 5 5 2 10 0", Player::X).unwrap().is_some());
}

#[test]
fn load_rejects_a_corrupt_line() {
    let nogo = Nogo::with_players('c', 'c', 0, 0);
    let corrupt = Some(NogoError::CorruptFile);
    for player in [Player::O, Player::X] {
        assert_eq!(Computer::load(&nogo, "", player).err(), corrupt);
        assert_eq!(Computer::load(&nogo, "7", player).err(), corrupt);
        assert_eq!(Computer::load(&nogo, "7 7 0 1 4", player).err(), corrupt);
        assert_eq!(Computer::load(&nogo, "7 7 0 1 x 0 2 10 0", player).err(), corrupt);
        assert_eq!(Computer::load(&nogo, "7 7 0 1 4 0 2 10 0 y", player).err(), corrupt);
        assert_eq!(Computer::load(&nogo, "7 7 0 1 -4 0 2 10 0", player).err(), corrupt);
        assert_eq!(Computer::load(&nogo, "7 7 0 1 4.0 0 2 10 0", player).err(), corrupt);
        let big = format!("7 7 0 1 4 0 2 10 {}0", usize::MAX);
        assert_eq!(Computer::load(&nogo, &big, player).err(), corrupt);
    }
    // Player O needs six numbers, player X nine.
    assert!(Computer::load(&nogo, "7 7 0 1 4 0", Player::O).is_ok());
    assert_eq!(Computer::load(&nogo, "7 7 0 1 4 0", Player::X).err(), corrupt);
    assert_eq!(Computer::load(&nogo, "7 7 0 1 4 0 2 10", Player::X).err(), corrupt);
    assert!(Computer::load(&nogo, "7 7 0 1 4 0 2 10 0", Player::X).is_ok());
    // A human is told of a corrupt line as well.
    let humans = Nogo::with_players('h', 'h', 0, 0);
    assert_eq!(Computer::load(&humans, "7 7 0 1 4", Player::O).err(), corrupt);
    assert_eq!(Computer::load(&humans, "7 7 zero 1 4 0 2 10 0", Player::X).err(), corrupt);
}

#[test]
fn load_rejects_a_width_whose_base_does_not_fit() {
    let nogo = Nogo::with_players('c', 'c', 0, 0);
    let line = format!("7 {} 0 1 4 0 2 10 0", usize::MAX);
    assert_eq!(Computer::load(&nogo, &line, Player::O).err(), Some(NogoError::CorruptFile));
    assert_eq!(Computer::load(&nogo, &line, Player::X).err(), Some(NogoError::CorruptFile));
    let line = format!("7 {} 0 1 4 0 2 10 0", usize::MAX - 4);
    assert!(Computer::load(&nogo, &line, Player::O).is_ok());
    assert_eq!(Computer::load(&nogo, &line, Player::X).err(), Some(NogoError::CorruptFile));
    let line = format!("7 {} 0 1 4 0 2 10 0", (usize::MAX - 10) / 2);
    assert!(Computer::load(&nogo, &line, Player::X).is_ok());
}

#[test]
fn from_numbers_reads_the_fields_of_a_player() {
    let nogo = Nogo::with_players('c', 'c', 0, 0);
    let fields = vec![7, 9, 1, 4, 6, 2, 12, 30, 7];
    let o = Computer::from_numbers(&nogo, &fields, Player::O).unwrap().unwrap();
    assert_eq!((o.get_row(), o.get_column(), o.get_counter()), (4, 6, 2));
    let x = Computer::from_numbers(&nogo, &fields, Player::X).unwrap().unwrap();
    assert_eq!((x.get_row(), x.get_column(), x.get_counter()), (12, 30, 7));
    let short = vec![7, 9, 1, 4, 6];
    assert_eq!(
        Computer::from_numbers(&nogo, &short, Player::O).err(),
        Some(NogoError::CorruptFile)
    );
}
