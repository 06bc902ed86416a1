use sudoku::generator::{read_puzzles, Difficulty, Generator};
use sudoku::state::GridState;

const ALL: [Difficulty; 5] = [
    Difficulty::VeryEasy,
    Difficulty::Easy,
    Difficulty::Medium,
    Difficulty::Hard,
    Difficulty::Fiendish,
];

fn clue_count(g: &GridState) -> usize {
    (0..9).map(|i| g.row(i).iter().filter(|s| s.is_initial()).count()).sum()
}

#[test]
fn every_catalog_reads_and_is_consistent() {
    for d in ALL {
        let puzzles = read_puzzles(d.puzzles()).expect("catalog reads");
        assert_eq!(puzzles.len(), 2);
        for p in &puzzles {
            assert!(p.find_invalid_squares().is_empty());
        }
    }
}

#[test]
fn harder_tiers_give_fewer_clues() {
    let counts: Vec<usize> = ALL
        .iter()
        .map(|d| clue_count(&read_puzzles(d.puzzles()).unwrap()[0]))
        .collect();
    for w in counts.windows(2) {
        assert!(w[0] > w[1]);
    }
}

#[test]
fn read_puzzles_ignores_a_last_partial_group() {
    let text = Difficulty::Easy.puzzles();
    // 100 characters: five whole lines and part of a sixth
    assert_eq!(read_puzzles(&text[..100]).map(|v| v.len()), Some(0));
    assert_eq!(read_puzzles("").map(|v| v.len()), Some(0));
    let first_and_a_half = &text[..162 + 90];
    assert_eq!(read_puzzles(first_and_a_half).map(|v| v.len()), Some(1));
}

#[test]
fn read_puzzles_without_final_newline() {
    let text = &Difficulty::Medium.puzzles()[..161];
    let puzzles = read_puzzles(text).expect("one puzzle");
    assert_eq!(puzzles.len(), 1);
    let whole = read_puzzles(Difficulty::Medium.puzzles()).unwrap();
    assert_eq!(puzzles[0].to_csv(), whole[0].to_csv());
}

#[test]
fn read_puzzles_accepts_crlf_lines() {
    let text = Difficulty::Hard.puzzles().replace('\n', "\r\n");
    let puzzles = read_puzzles(&text).expect("two puzzles");
    let plain = read_puzzles(Difficulty::Hard.puzzles()).unwrap();
    assert_eq!(puzzles.len(), 2);
    assert_eq!(puzzles[1].to_csv(), plain[1].to_csv());
}

#[test]
fn read_puzzles_refuses_a_bad_entry() {
    let text = Difficulty::Easy.puzzles().replacen('0', "x", 1);
    assert!(read_puzzles(&text).is_none());
}

#[test]
fn generated_puzzles_have_no_conflicts() {
    for d in ALL {
        for _ in 0..20 {
            let g = Generator::generate(d).expect("a puzzle");
            assert!(g.find_invalid_squares().is_empty());
            assert!(!g.is_solved());
            assert_eq!(g.current(), (0, 0));
        }
    }
}

#[test]
fn generated_puzzle_keeps_its_clue_count() {
    let base = read_puzzles(Difficulty::Hard.puzzles()).unwrap();
    let counts: Vec<usize> = base.iter().map(clue_count).collect();
    for _ in 0..20 {
        let g = Generator::generate(Difficulty::Hard).unwrap();
        assert!(counts.contains(&clue_count(&g.state())));
    }
}

#[test]
fn generate_from_applies_each_step() {
    let base = read_puzzles(Difficulty::Medium.puzzles()).unwrap()[0];
    let p = [2u8, 3, 4, 5, 6, 7, 8, 9, 1];
    let plain = Generator::generate_from(base, &p, false, false);
    let v = base.row(0)[0].value();
    let expect = if v == 0 { 0 } else { p[(v - 1) as usize] };
    assert_eq!(plain.row(0)[0].value(), expect);
    let both = Generator::generate_from(base, &p, true, true);
    assert_eq!(both.row(8)[8].value(), expect);
}

#[test]
fn difficulty_names_parse_in_any_case() {
    assert_eq!(Difficulty::from_name("very easy"), Some(Difficulty::VeryEasy));
    assert_eq!(Difficulty::from_name("Very Easy"), Some(Difficulty::VeryEasy));
    assert_eq!(Difficulty::from_name("MeDiUm"), Some(Difficulty::Medium));
    assert_eq!(Difficulty::from_name("FIENDISH"), Some(Difficulty::Fiendish));
    assert_eq!(Difficulty::from_name("hard"), Some(Difficulty::Hard));
    assert_eq!(Difficulty::from_name("easy"), Some(Difficulty::Easy));
    assert_eq!(Difficulty::from_name("impossible"), None);
    assert_eq!(Difficulty::from_lower_name("Easy"), None);
}

#[test]
fn difficulty_display_names() {
    assert_eq!(Difficulty::VeryEasy.name(), "Very Easy");
    assert_eq!(Difficulty::Fiendish.name(), "Fiendish");
}

#[test]
fn parse_reads_a_known_name() {
    assert_eq!(Difficulty::parse("Very Easy"), Difficulty::VeryEasy);
    assert_eq!(Difficulty::parse("HARD"), Difficulty::Hard);
}
