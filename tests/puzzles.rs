use advent_solvers::calories::{get_elf_calories, get_top_n_elf_calories, CalorieError};
use advent_solvers::camp::{get_complete_overlaps, get_partial_overlaps, CampError};
use advent_solvers::rps::{simulate_input_strategy_results, RPSMove, RPSResult, RPSRound, RpsError};
use advent_solvers::rucksack::{get_badges_priority, get_total_priority, Rucksack, RucksackError};
use advent_solvers::tuning::{get_start_of_packet_14_unrepeated, get_start_of_packet_4_unrepeated};

fn lines(text: &[&str]) -> Vec<String> {
    text.iter().map(|l| l.to_string()).collect()
}

fn calorie_example() -> Vec<String> {
    lines(&[
        "1000", "2000", "3000", "", "4000", "", "5000", "6000", "", "7000", "8000", "9000", "",
        "10000",
    ])
}

#[test]
fn most_calories() {
    assert_eq!(get_elf_calories(&calorie_example()), Ok(24000));
}

#[test]
fn top_three_calories() {
    assert_eq!(get_top_n_elf_calories(&calorie_example(), 3), Ok(45000));
    assert_eq!(get_top_n_elf_calories(&calorie_example(), 1), Ok(24000));
    assert_eq!(get_top_n_elf_calories(&calorie_example(), 0), Ok(0));
    assert_eq!(get_top_n_elf_calories(&calorie_example(), 99), Ok(55000));
}

#[test]
fn calories_edge_cases() {
    assert_eq!(get_elf_calories(&[]), Err(CalorieError::NoElves));
    assert_eq!(get_top_n_elf_calories(&[], 3), Ok(0));
    assert_eq!(get_elf_calories(&lines(&["5", "x", "7", ""])), Ok(7));
    assert_eq!(
        get_elf_calories(&lines(&["2147483647", "1"])),
        Err(CalorieError::Overflow)
    );
    assert_eq!(
        get_top_n_elf_calories(&lines(&["2147483647", "", "1"]), 2),
        Err(CalorieError::Overflow)
    );
    assert_eq!(get_elf_calories(&lines(&["-5", "", "-3"])), Ok(-3));
}

#[test]
fn strategy_guide_score() {
    assert_eq!(
        simulate_input_strategy_results(&lines(&["A Y", "B X", "C Z"])),
        Ok(15)
    );
    assert_eq!(simulate_input_strategy_results(&[]), Ok(0));
}

#[test]
fn strategy_guide_errors() {
    assert_eq!(
        simulate_input_strategy_results(&lines(&["A Y", ""])),
        Err(RpsError::EmptyRound)
    );
    assert_eq!(
        simulate_input_strategy_results(&lines(&["Q Y"])),
        Err(RpsError::UnknownMove('Q'))
    );
    assert_eq!(
        simulate_input_strategy_results(&lines(&["A W"])),
        Err(RpsError::UnknownMove('W'))
    );
    assert_eq!(
        simulate_input_strategy_results(&lines(&["A"])),
        Err(RpsError::MissingMove)
    );
}

#[test]
fn rounds_and_shapes() {
    assert_eq!(RPSMove::decrypt_from_char('B'), Ok(RPSMove::Paper));
    assert_eq!(RPSMove::decrypt_from_char('Z'), Ok(RPSMove::Scissors));
    assert_eq!(RPSMove::Scissors.as_score(), 3);
    assert_eq!(RPSMove::Rock.play(RPSMove::Scissors), RPSResult::SelfWin(7));
    assert_eq!(RPSMove::Rock.play(RPSMove::Paper), RPSResult::SelfLoss(1));
    assert_eq!(RPSMove::Paper.play(RPSMove::Paper), RPSResult::Draw(5));
    assert_eq!(RPSResult::Draw(5).get_score(), 5);
    let round = RPSRound::new("C X").unwrap();
    assert_eq!(round.opponent_move, RPSMove::Scissors);
    assert_eq!(round.self_move, RPSMove::Rock);
    assert_eq!(round.result, RPSResult::SelfWin(7));
}

fn rucksack_example() -> Vec<String> {
    lines(&[
        "vJrwpWtwJgWrhcsFMMfFFhFp",
        "jqHRNqRjqzjGDLGLrsFMfFZSrLrFZsSL",
        "PmmdzqPrVvPwwTWBwg",
        "wMqvLMZHhHMvwLHjbvcjnnSBnvTQFn",
        "ttgJtRGJQctTZtZT",
        "CrZsJsPPZsGzwwsLwLmpwMDw",
    ])
}

#[test]
fn misplaced_items_priority() {
    assert_eq!(get_total_priority(&rucksack_example()), Ok(157));
    let sack = Rucksack::new("vJrwpWtwJgWrhcsFMMfFFhFp").unwrap();
    assert_eq!(sack.compartment_1, "vJrwpWtwJgWr");
    assert_eq!(sack.compartment_2, "hcsFMMfFFhFp");
    assert_eq!(sack.wrong_item, 'p');
}

#[test]
fn badges_priority() {
    assert_eq!(get_badges_priority(&rucksack_example()), Ok(70));
}

#[test]
fn rucksack_errors() {
    assert_eq!(get_total_priority(&lines(&["ab1b"])), Err(RucksackError::UnknownItemType('1')));
    assert_eq!(get_total_priority(&lines(&["abc"])), Err(RucksackError::UnevenItems));
    assert_eq!(get_total_priority(&lines(&["abcd"])), Err(RucksackError::NoRepeatedItem));
    assert_eq!(
        get_badges_priority(&lines(&["abc", "def", "ghi"])),
        Err(RucksackError::NoBadge)
    );
    assert_eq!(
        get_badges_priority(&lines(&["abc", "cde"])),
        Err(RucksackError::IncompleteGroup)
    );
    assert_eq!(get_badges_priority(&[]), Err(RucksackError::IncompleteGroup));
    assert_eq!(
        get_badges_priority(&lines(&["ab", "b c", "b"])),
        Err(RucksackError::UnknownItemType(' '))
    );
}

fn assignment_example() -> Vec<String> {
    lines(&["2-4,6-8", "2-3,4-5", "5-7,7-9", "2-8,3-7", "6-6,4-6", "2-6,4-8"])
}

#[test]
fn complete_overlaps() {
    assert_eq!(get_complete_overlaps(&assignment_example()), Ok(2));
}

#[test]
fn partial_overlaps() {
    assert_eq!(get_partial_overlaps(&assignment_example()), Ok(4));
}

#[test]
fn assignment_errors() {
    assert_eq!(get_complete_overlaps(&lines(&["2-4"])), Err(CampError::BadLimitCount));
    assert_eq!(get_partial_overlaps(&lines(&["2-4,,6-8"])), Err(CampError::BadLimitCount));
    assert_eq!(get_complete_overlaps(&lines(&["a-4,6-8"])), Err(CampError::NotANumber));
    assert_eq!(get_complete_overlaps(&[]), Ok(0));
}

#[test]
fn start_of_packet_markers() {
    assert_eq!(get_start_of_packet_4_unrepeated("mjqjpqmgbljsphdztnvjfqwrcgsmlb"), Some(7));
    assert_eq!(get_start_of_packet_4_unrepeated("bvwbjplbgvbhsrlpgdmjqwftvncz"), Some(5));
    assert_eq!(get_start_of_packet_4_unrepeated("nppdvjthqldpwncqszvftbrmjlhg"), Some(6));
    assert_eq!(get_start_of_packet_4_unrepeated("nznrnfrfntjfmvfwmzdfjlvtqnbhcprsg"), Some(10));
    assert_eq!(get_start_of_packet_4_unrepeated("zcfzfwzzqfrljwzlrfnpqdbhtmscgvjw"), Some(11));
}

#[test]
fn start_of_message_markers() {
    assert_eq!(get_start_of_packet_14_unrepeated("mjqjpqmgbljsphdztnvjfqwrcgsmlb"), Some(19));
    assert_eq!(get_start_of_packet_14_unrepeated("bvwbjplbgvbhsrlpgdmjqwftvncz"), Some(23));
    assert_eq!(get_start_of_packet_14_unrepeated("nppdvjthqldpwncqszvftbrmjlhg"), Some(23));
    assert_eq!(get_start_of_packet_14_unrepeated("nznrnfrfntjfmvfwmzdfjlvtqnbhcprsg"), Some(29));
    assert_eq!(get_start_of_packet_14_unrepeated("zcfzfwzzqfrljwzlrfnpqdbhtmscgvjw"), Some(26));
}

#[test]
fn markers_edge_cases() {
    assert_eq!(get_start_of_packet_4_unrepeated("abcd"), Some(4));
    assert_eq!(get_start_of_packet_4_unrepeated("abc"), None);
    assert_eq!(get_start_of_packet_4_unrepeated("aaaaaaa"), None);
    assert_eq!(get_start_of_packet_4_unrepeated(""), None);
}
