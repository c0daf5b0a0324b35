use aoc22::assignments::{Assignment, RangeError};
use aoc22::calories::{CalorieError, group_totals, max_total, top3_total};
use aoc22::filesystem::{FileSystem, FsError};
use aoc22::rps::{Outcome, RoundError, Shape, score_strategy_one, score_strategy_two};
use aoc22::rucksack::{ItemError, common_element, common_element_2, compartments, value_of};
use aoc22::signals::find_unique;
use aoc22::stacks::{Op, StackError, Stacks};

#[test]
fn test_value_of() {
    assert_eq!(value_of('p').unwrap(), 16_u32);
    assert_eq!(value_of('L').unwrap(), 38_u32);
}

#[test]
fn test_overlap() {
    assert_eq!(true, Assignment::overlaps(&Assignment::new(5, 7), &Assignment::new(7, 9)));
    assert_eq!(true, Assignment::overlaps(&Assignment::new(2, 8), &Assignment::new(3, 7)));
    assert_eq!(true, Assignment::overlaps(&Assignment::new(6, 6), &Assignment::new(4, 6)));
    assert_eq!(true, Assignment::overlaps(&Assignment::new(2, 6), &Assignment::new(4, 8)));

    assert_eq!(true, Assignment::overlaps(&Assignment::new(7, 9), &Assignment::new(5, 7)));
    assert_eq!(true, Assignment::overlaps(&Assignment::new(3, 7), &Assignment::new(2, 8)));
    assert_eq!(true, Assignment::overlaps(&Assignment::new(4, 6), &Assignment::new(6, 6)));
    assert_eq!(true, Assignment::overlaps(&Assignment::new(4, 8), &Assignment::new(2, 6)));

    assert_eq!(false, Assignment::overlaps(&Assignment::new(2, 6), &Assignment::new(7, 8)));
    assert_eq!(false, Assignment::overlaps(&Assignment::new(7, 8), &Assignment::new(2, 6)));
}

#[test]
fn test_parse_op() {
    let line = "move 12 from 4 to 7";
    let op: Op = Op::parse(line).unwrap();

    assert_eq!(op, Op::new(12, 4, 7));
}

#[test]
fn test_parse_op_invalid() {
    assert_eq!(Op::parse("shift 1 from 2 to 3"), Err(StackError::InvalidOp));
    assert_eq!(Op::parse("move x from 2 to 3"), Err(StackError::InvalidOp));
    assert_eq!(Op::parse("move 1 from 2"), Err(StackError::InvalidOp));
}

#[test]
fn test_calorie_totals_example() {
    let input = "1000\n2000\n3000\n\n4000\n\n5000\n6000\n\n7000\n8000\n9000\n\n10000";
    let totals = group_totals(input).unwrap();
    assert_eq!(totals, vec![6000, 4000, 11000, 24000, 10000]);
    assert_eq!(max_total(&totals), 24000);
    assert_eq!(top3_total(&totals), 45000);
}

#[test]
fn test_calorie_invalid_line() {
    assert_eq!(group_totals("12\nx3"), Err(CalorieError::InvalidCalorie));
}

#[test]
fn test_top3_short_lists() {
    assert_eq!(top3_total(&vec![]), 0);
    assert_eq!(top3_total(&vec![5]), 5);
    assert_eq!(top3_total(&vec![5, 7]), 12);
    assert_eq!(top3_total(&vec![1, 9, 2, 8, 3]), 20);
}

#[test]
fn test_score_strategy_one_example() {
    assert_eq!(score_strategy_one("A Y").unwrap(), 8);
    assert_eq!(score_strategy_one("B X").unwrap(), 1);
    assert_eq!(score_strategy_one("C Z").unwrap(), 6);
}

#[test]
fn test_score_strategy_two_example() {
    assert_eq!(score_strategy_two("A Y").unwrap(), 4);
    assert_eq!(score_strategy_two("B X").unwrap(), 1);
    assert_eq!(score_strategy_two("C Z").unwrap(), 7);
}

#[test]
fn test_score_strategy_errors() {
    assert_eq!(score_strategy_one("D X"), Err(RoundError::InvalidHand));
    assert_eq!(score_strategy_one("A Q"), Err(RoundError::InvalidSecond));
    assert_eq!(score_strategy_one("AX"), Err(RoundError::InvalidRound));
    assert_eq!(score_strategy_two("A Q"), Err(RoundError::InvalidSecond));
}

#[test]
fn test_outcome_and_find_outcome() {
    assert_eq!(Shape::Rock.outcome(&Shape::Scissors), Outcome::Win);
    assert_eq!(Shape::Rock.outcome(&Shape::Paper), Outcome::Lose);
    assert_eq!(Shape::Rock.outcome(&Shape::Rock), Outcome::Draw);
    assert!(Shape::Rock.beats(&Shape::Scissors));
    assert!(!Shape::Rock.beats(&Shape::Paper));
    assert_eq!(Shape::Rock.find_outcome(Outcome::Win), Shape::Paper);
    assert_eq!(Shape::Rock.find_outcome(Outcome::Lose), Shape::Scissors);
    assert_eq!(Shape::Rock.find_outcome(Outcome::Draw), Shape::Rock);
}

#[test]
fn test_value_of_rejects_non_letters() {
    assert_eq!(value_of('!'), Err(ItemError::NotALetter));
    assert_eq!(value_of('0'), Err(ItemError::NotALetter));
}

#[test]
fn test_rucksack_common_item() {
    let bag = "vJrwpWtwJgWrhcsFMMfFFhFp";
    let (a, b) = compartments(bag);
    assert_eq!(a, "vJrwpWtwJgWr");
    assert_eq!(b, "hcsFMMfFFhFp");
    assert_eq!(common_element(a, b), Some('p'));
    assert_eq!(common_element("abc", "xyz"), None);
}

#[test]
fn test_rucksack_badge() {
    let bags = vec![
        "vJrwpWtwJgWrhcsFMMfFFhFp",
        "jqHRNqRjqzjGDLGLrsFMfFZSrLrFZsSL",
        "PmmdzqPrVvPwwTWBwg",
    ];
    assert_eq!(common_element_2(&bags), Some('r'));
    assert_eq!(common_element_2(&vec!["ab", "cd", "ef"]), None);
}

#[test]
fn test_assignment_parse() {
    assert_eq!(Assignment::parse("2-4"), Ok(Assignment::new(2, 4)));
    assert_eq!(Assignment::parse("2-4-5"), Err(RangeError::InvalidShape));
    assert_eq!(Assignment::parse("a-4"), Err(RangeError::InvalidNumber));
    assert_eq!(Assignment::parse("2-"), Err(RangeError::InvalidNumber));
}

#[test]
fn test_assignment_contains() {
    assert!(Assignment::new(2, 8).contains(&Assignment::new(3, 7)));
    assert!(!Assignment::new(3, 7).contains(&Assignment::new(2, 8)));
}

#[test]
fn test_find_unique_markers() {
    assert_eq!(find_unique("mjqjpqmgbljsphdztnvjfqwrcgsmlb", 4), Some(7));
    assert_eq!(find_unique("bvwbjplbgvbhsrlpgdmjqwftvncz", 4), Some(5));
    assert_eq!(find_unique("mjqjpqmgbljsphdztnvjfqwrcgsmlb", 14), Some(19));
    assert_eq!(find_unique("aaaaaa", 3), None);
}

#[test]
fn test_stacks_rearrange_example() {
    let setup = "    [D]    \n[N] [C]    \n[Z] [M] [P]\n 1   2   3 ";
    let ops: Vec<Op> = [
        "move 1 from 2 to 1",
        "move 3 from 1 to 3",
        "move 2 from 2 to 1",
        "move 1 from 1 to 2",
    ].iter().map(|l| Op::parse(l).unwrap()).collect();

    let stacks = Stacks::parse(setup).unwrap();

    let mut one_at_a_time = stacks.clone();
    one_at_a_time.rearrange_9000(&ops).unwrap();
    assert_eq!(one_at_a_time.tops().unwrap(), "CMZ");

    let mut in_blocks = stacks;
    in_blocks.rearrange_9001(&ops).unwrap();
    assert_eq!(in_blocks.tops().unwrap(), "MCD");
}

#[test]
fn test_stacks_errors() {
    assert!(matches!(Stacks::parse(""), Err(StackError::InvalidSetup)));
    let mut stacks = Stacks::parse("[A]\n 1 ").unwrap();
    assert_eq!(
        stacks.rearrange_9000(&vec![Op::new(1, 2, 1)]),
        Err(StackError::InvalidFromIndex),
    );
    assert_eq!(
        stacks.rearrange_9000(&vec![Op::new(2, 1, 1)]),
        Err(StackError::StackExhausted),
    );
    assert_eq!(
        stacks.rearrange_9000(&vec![Op::new(1, 1, 2)]),
        Err(StackError::InvalidToIndex),
    );
}

#[test]
fn test_filesystem_transcript() {
    let input = "$ cd /\n$ ls\ndir a\n14848514 b.txt\n$ cd a\n$ ls\n584 i";
    assert!(FileSystem::parse(input).is_ok());
}

#[test]
fn test_filesystem_transcript_errors() {
    assert!(matches!(FileSystem::parse("$ cd nowhere"), Err(FsError::NoSuchDir)));
    assert!(matches!(FileSystem::parse("hello"), Err(FsError::UnknownCommand)));
    assert!(matches!(FileSystem::parse("$ reboot"), Err(FsError::UnknownCommand)));
    assert!(matches!(FileSystem::parse("$ ls\njunk"), Err(FsError::InvalidEntry)));
    assert!(matches!(FileSystem::parse("$ ls\nx y"), Err(FsError::InvalidEntry)));
    assert!(matches!(
        FileSystem::parse("$ ls\ndir a\ndir a"),
        Err(FsError::DuplicateName),
    ));
    assert!(matches!(
        FileSystem::parse("$ ls\n10 f\n$ cd f\n$ ls\ndir x"),
        Err(FsError::NotAFolder),
    ));
}

#[test]
fn test_filesystem_cursor_walk() {
    let mut fs = FileSystem::new();
    let mut cur = fs.root_mut();
    cur.add_folder(&mut fs, "a").unwrap();
    cur.add_file(&mut fs, "b.txt", 100).unwrap();
    assert_eq!(cur.add_folder(&mut fs, "a"), Err(FsError::DuplicateName));

    let inner = cur.change(&fs, "a").unwrap();
    assert_eq!(inner.node_idx().0, 1);
    let back = inner.change(&fs, "..").unwrap();
    assert_eq!(back.node_idx().0, 0);
    let root = back.change(&fs, "/").unwrap();
    assert_eq!(root.node_idx().0, 0);
    assert_eq!(root.change(&fs, "missing").unwrap_err(), FsError::NoSuchDir);
}
