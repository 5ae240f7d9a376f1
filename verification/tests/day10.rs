use daily_puzzles::day10::part_1::{find_reached, press, same_lights, Reached};
use daily_puzzles::day10::part_2::{checked_total, counted, raises_to, total_presses, Problem};
use daily_puzzles::day10::{
    button_wirings, indicator_lights, is_wired, joltage_requirements, part_1, part_2, Button,
    Light, Machine,
};
use daily_puzzles::error::{Error, Stage};
use daily_puzzles::text::Item;

const EXAMPLE: &str = "\
[.##.] (3) (1,3) (2) (2,3) (0,2) (0,1) {3,5,4,7}
[...#.] (0,2,3,4) (2,3) (0,4) (0,1,2) (1,2,3,4) {7,5,12,7,2}
[.###.#] (0,1,2,3,4) (0,3,4) (0,1,2,4,5) (1,2) {10,11,11,5,10,5}/
";

fn button(wiring: &[usize]) -> Button {
    Button { wiring: wiring.to_vec() }
}

#[test]
fn day_10_part_1_example_works() {
    let expected = 7;
    let solution = part_1::solve(EXAMPLE).unwrap();
    assert_eq!(solution, expected);
}

#[test]
fn day_10_part_2_example_works() {
    let expected = 33;
    let solution = part_2::solve(EXAMPLE).unwrap();
    assert_eq!(solution, expected);
}

#[test]
fn day_10_rejects_text_without_machines() {
    assert_eq!(part_1::solve(""), Err(Error::Parse(Stage::Machines)));
    assert_eq!(part_1::solve("[.#] (0) (1)"), Err(Error::Parse(Stage::Machines)));
    assert_eq!(part_1::solve("[.#](0) {1}"), Err(Error::Parse(Stage::Machines)));
    assert_eq!(part_1::solve("[] (0) {1}"), Err(Error::Parse(Stage::Machines)));
    assert_eq!(part_2::solve("[.#] (0,) {1}"), Err(Error::Parse(Stage::Machines)));
    // The first part counts joltage in 64 bits, the second in 32.
    assert_eq!(part_1::solve("[.] (0) {4294967296}"), Ok(0));
    assert_eq!(part_2::solve("[.] (0) {4294967296}"), Err(Error::Parse(Stage::Machines)));
}

#[test]
fn day_10_lights_that_are_off_need_no_press() {
    assert_eq!(part_1::solve("[...] (0) (1,2) {1,1,1}"), Ok(0));
}

#[test]
fn day_10_lights_out_of_reach_are_reported() {
    assert_eq!(part_1::solve("[.#] (0) {1,1}"), Err(Error::Unsatisfiable));
    assert_eq!(part_1::solve("[##] (0,1) {1,1}\n[#.] (0,1) (5) {1,1}"), Err(Error::Unsatisfiable));
    assert_eq!(part_2::solve("[.#] (0) (0,1) {1,2}"), Err(Error::Unsatisfiable));
}

#[test]
fn day_10_presses_add_up_over_the_machines() {
    assert_eq!(part_1::solve("[##] (0) (1) {1,1}\n[#.] (0,1) (1) {1,1}\n[#] (0) {3}"), Ok(5));
    assert_eq!(part_2::solve("[##] (0) (1) {2,3}\n[#.] (0,1) (1) {4,6}\n[#] (0) {0}"), Ok(11));
    assert_eq!(part_2::solve("[#] (0) (0) {4294967295}"), Ok(4294967295));
}

#[test]
fn machine_is_read_piece_by_piece() {
    assert_eq!(indicator_lights(b"[.#.]x", 0), Some((vec![Light::Off, Light::On, Light::Off], 5)));
    assert_eq!(indicator_lights(b"[.#.", 0), None);
    let (buttons, end) = button_wirings(b"(3) (1,3)\t(12) {", 0).unwrap();
    assert_eq!(end, 14);
    assert_eq!(buttons.iter().map(|b| b.wiring.clone()).collect::<Vec<_>>(), vec![vec![3], vec![1, 3], vec![12]]);
    assert_eq!(joltage_requirements::<u64>(b"{3,5}", 0), Some((vec![3, 5], 5)));
    assert_eq!(joltage_requirements::<u32>(b"{3,5", 0), None);
    let (machine, end) = Machine::<u32>::parse(b"[#] (0) {7}\n", 0).unwrap();
    assert_eq!((machine.lights, machine.joltage, end), (vec![Light::On], vec![7], 11));
}

#[test]
fn press_switches_the_wired_lights() {
    let lights = vec![Light::Off, Light::On, Light::Off];
    assert_eq!(press(&lights, &button(&[0, 1, 7])), vec![Light::On, Light::Off, Light::Off]);
    assert_eq!(Light::On.toggle(), Light::Off);
    assert!(is_wired(&button(&[4, 2]), 2));
    assert!(!is_wired(&button(&[4, 2]), 3));
    assert!(same_lights(&lights, &vec![Light::Off, Light::On, Light::Off]));
    assert!(!same_lights(&lights, &vec![Light::Off, Light::On]));
    let reached = vec![Reached { lights: vec![Light::Off], presses: 0 }, Reached { lights: vec![Light::On], presses: 1 }];
    assert_eq!(find_reached(&reached, &vec![Light::On]), Some(1));
    assert_eq!(find_reached(&reached, &vec![Light::On, Light::On]), None);
}

#[test]
fn presses_are_checked_against_the_requirements() {
    let machine = Machine { lights: vec![Light::Off], buttons: vec![button(&[0]), button(&[0, 1])], joltage: vec![5u32, 3] };
    assert_eq!(checked_total(&machine, &vec![2, 3]), Some(5));
    assert_eq!(checked_total(&machine, &vec![3, 2]), None);
    assert_eq!(checked_total(&machine, &vec![2]), None);
    assert!(raises_to(&machine.buttons, &vec![2, 3], 1, 3));
    assert!(!raises_to(&machine.buttons, &vec![u64::MAX, u64::MAX], 0, 3));
    assert!(raises_to(&machine.buttons, &vec![2, 3], 9, 0));
}

#[test]
fn results_add_up_or_fail() {
    assert_eq!(total_presses(&vec![Some(3), Some(4)]), Ok(7));
    assert_eq!(total_presses(&vec![]), Ok(0));
    assert_eq!(total_presses(&vec![Some(3), None, Some(u64::MAX)]), Err(Error::Unsatisfiable));
    assert_eq!(total_presses(&vec![Some(3), Some(u64::MAX), None]), Err(Error::Overflow));
}

#[test]
fn fewest_presses_agree_with_trying_every_choice_of_buttons() {
    // Every machine with three lights and three buttons out of a few wirings.
    let wirings: [&[usize]; 5] = [&[0], &[1, 2], &[0, 2], &[0, 1, 2], &[2, 7]];
    for goal in 0..8u32 {
        for a in 0..wirings.len() {
            for b in 0..wirings.len() {
                for c in 0..wirings.len() {
                    let chosen = [wirings[a], wirings[b], wirings[c]];
                    // A button pressed twice does nothing, so each is pressed once or not at all.
                    let mut expected: Option<u64> = None;
                    for pressed in 0..8u32 {
                        let mut lights = 0u32;
                        for (k, wiring) in chosen.iter().enumerate() {
                            if pressed & (1 << k) != 0 {
                                for light in wiring.iter().filter(|light| **light < 3) {
                                    lights ^= 1 << light;
                                }
                            }
                        }
                        let count = u64::from(pressed.count_ones());
                        if lights == goal && expected.map_or(true, |best| count < best) {
                            expected = Some(count);
                        }
                    }
                    let machine = Machine {
                        lights: (0..3).map(|i| if goal & (1 << i) != 0 { Light::On } else { Light::Off }).collect(),
                        buttons: chosen.iter().map(|wiring| button(wiring)).collect(),
                        joltage: vec![0u64],
                    };
                    assert_eq!(part_1::solve_machine(&machine), expected.ok_or(Error::Unsatisfiable));
                }
            }
        }
    }
}

#[test]
fn problem_of_a_machine_is_written_down_counter_by_counter() {
    let (machine, _) = Machine::<u32>::parse(b"[.##.] (3) (1,3) (2) (2,3) (0,2) (0,1) {3,5,4,7}", 0).unwrap();
    let problem = Problem::of(&machine).unwrap();
    assert_eq!(problem.unknowns, 6);
    assert_eq!(problem.at_least, 0);
    assert_eq!(problem.minimized, vec![0, 1, 2, 3, 4, 5]);
    let equations: Vec<(Vec<usize>, u32)> = problem.equations.iter().map(|e| (e.unknowns.clone(), e.sum)).collect();
    assert_eq!(equations, vec![(vec![4, 5], 3), (vec![1, 5], 5), (vec![2, 3, 4], 4), (vec![0, 1, 3], 7)]);
    let bare = Machine { lights: vec![], buttons: vec![], joltage: vec![0u32, 2] };
    let problem = Problem::of(&bare).unwrap();
    assert_eq!((problem.unknowns, problem.minimized.len(), problem.equations.len()), (0, 0, 2));
    assert!(problem.equations.iter().all(|e| e.unknowns.is_empty()));
    // A button that is wired to a counter twice is named once.
    let twice = Machine { lights: vec![], buttons: vec![button(&[0, 0, 1])], joltage: vec![1u32, 1] };
    let problem = Problem::of(&twice).unwrap();
    assert_eq!(problem.equations[0].unknowns, vec![0]);
}

#[test]
fn presses_named_are_counted_if_they_stand_the_check() {
    let (machine, _) = Machine::<u32>::parse(b"[.##.] (3) (1,3) (2) (2,3) (0,2) (0,1) {3,5,4,7}", 0).unwrap();
    assert_eq!(counted(&machine, &None), None);
    assert_eq!(counted(&machine, &Some(vec![1, 3, 0, 3, 1, 2])), Some(10));
    assert_eq!(counted(&machine, &Some(vec![1, 3, 0, 3, 1, 3])), None);
    assert_eq!(counted(&machine, &Some(vec![1, 3, 0, 3, 1])), None);
    assert_eq!(part_2::solve_machine(&machine), Some(10));
}

#[test]
fn machines_without_answer_or_without_buttons() {
    let stuck = Machine { lights: vec![], buttons: vec![button(&[0]), button(&[0, 1])], joltage: vec![1u32, 2] };
    assert_eq!(part_2::solve_machine(&stuck), None);
    let idle = Machine { lights: vec![], buttons: vec![], joltage: vec![0u32, 0] };
    assert_eq!(part_2::solve_machine(&idle), Some(0));
    let unwired = Machine { lights: vec![], buttons: vec![button(&[5])], joltage: vec![0u32] };
    assert_eq!(part_2::solve_machine(&unwired), Some(0));
    let short = Machine { lights: vec![], buttons: vec![], joltage: vec![3u32] };
    assert_eq!(part_2::solve_machine(&short), None);
}
