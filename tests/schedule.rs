use bus_schedule::{part_one, part_two, read_input, Big, BigIntGenerator, Bus, ScheduleError};
use num_bigint::{BigInt, BigUint};

const TEST_TWO_NUMS: &str = "123\n7,13";
const TEST_THREE_NUMS: &str = "123\n7,13,17";
const TEST_FOUR_NUMS: &str = "123\n7,13,17,x,19";

fn to_bigint(b: &Big) -> BigInt {
    BigInt::from(BigUint::from_slice(&b.to_u32_digits()))
}

fn solve(input: &str) -> BigInt {
    let (_, busses) = read_input(input).unwrap();
    to_bigint(&part_two(&busses).unwrap())
}

fn fits(busses: &[Bus], t: &BigUint) -> bool {
    busses
        .iter()
        .all(|b| (t + BigUint::from(b.offset)) % BigUint::from(b.period) == BigUint::from(0u32))
}

#[test]
fn it_returns_the_correct_start_offset_for_two_num_test() {
    let (_, busses) = read_input(TEST_TWO_NUMS).unwrap();
    let offset = part_two(&busses).unwrap();
    assert_eq!(BigInt::from(77), to_bigint(&offset));
}

#[test]
fn it_returns_the_correct_start_offset_for_three_num_test() {
    let (_, busses) = read_input(TEST_THREE_NUMS).unwrap();
    let offset = part_two(&busses).unwrap();
    assert_eq!(BigInt::from(168), to_bigint(&offset));
}

#[test]
fn it_returns_the_correct_start_offset_for_four_num_test() {
    let (_, busses) = read_input(TEST_FOUR_NUMS).unwrap();
    let offset = part_two(&busses).unwrap();
    assert_eq!(BigInt::from(10997), to_bigint(&offset));
}

#[test]
fn it_correctly_processes_the_tests_from_the_page() {
    let tests: Vec<(&str, BigInt)> = vec![
        ("999\n7,13,x,x,59,x,31,19", BigInt::from(1068781)),
        ("999\n17,x,13,19", BigInt::from(3417)),
        ("999\n67,7,59,61", BigInt::from(754018)),
        ("999\n67,x,7,59,61", BigInt::from(779210)),
        ("999\n67,7,x,59,61", BigInt::from(1261476)),
        ("999\n1789,37,47,1889", BigInt::from(1202161486)),
    ];
    for (input, expected) in tests {
        let (_, busses) = read_input(input).unwrap();
        let offset = part_two(&busses).unwrap();
        assert_eq!(expected, to_bigint(&offset));
    }
}

#[test]
fn parses_timestamp_and_buses() {
    let (ts, busses) = read_input("123\n7,13").unwrap();
    assert_eq!(ts, 123);
    assert_eq!(busses, vec![Bus { period: 7, offset: 0 }, Bus { period: 13, offset: 1 }]);
}

#[test]
fn unused_slots_still_count_as_positions() {
    let (_, busses) = read_input("5\n7,13,x,19").unwrap();
    assert_eq!(
        busses,
        vec![
            Bus { period: 7, offset: 0 },
            Bus { period: 13, offset: 1 },
            Bus { period: 19, offset: 3 },
        ]
    );
}

#[test]
fn zero_and_oversized_slots_are_skipped() {
    let (_, busses) = read_input("5\n0,99999999999999999999,,7\n").unwrap();
    assert_eq!(busses, vec![Bus { period: 7, offset: 3 }]);
}

#[test]
fn carriage_returns_end_lines() {
    let (ts, busses) = read_input("939\r\n7,x,13\r\n").unwrap();
    assert_eq!(ts, 939);
    assert_eq!(busses, vec![Bus { period: 7, offset: 0 }, Bus { period: 13, offset: 2 }]);
}

#[test]
fn missing_second_line_is_malformed() {
    assert_eq!(read_input("123"), Err(ScheduleError::MalformedInput));
    assert_eq!(read_input("123\n"), Err(ScheduleError::MalformedInput));
    assert_eq!(read_input(""), Err(ScheduleError::MalformedInput));
}

#[test]
fn non_numeric_timestamp_is_malformed() {
    assert_eq!(read_input("abc\n7,13"), Err(ScheduleError::MalformedInput));
    assert_eq!(read_input("-5\n7,13"), Err(ScheduleError::MalformedInput));
    assert_eq!(read_input("99999999999999999999\n7"), Err(ScheduleError::MalformedInput));
}

#[test]
fn part_one_finds_earliest_bus() {
    let (ts, busses) = read_input("939\n7,13,x,x,59,x,31,19").unwrap();
    assert_eq!(part_one(ts, &busses), 295);
}

#[test]
fn part_one_is_zero_when_a_bus_departs_at_the_timestamp() {
    let (ts, busses) = read_input("91\n5,13,x,7").unwrap();
    assert_eq!(part_one(ts, &busses), 0);
}

#[test]
fn part_one_of_no_buses_is_zero() {
    assert_eq!(part_one(100, &[]), 0);
}

#[test]
fn part_one_keeps_the_first_of_equal_waits() {
    // 10 % 4 = 2, wait 2; 10 % 6 = 4, wait 2: the first bus wins.
    assert_eq!(part_one(10, &[Bus { period: 4, offset: 0 }, Bus { period: 6, offset: 1 }]), 8);
}

#[test]
fn part_two_of_no_buses_is_zero() {
    assert_eq!(to_bigint(&part_two(&[]).unwrap()), BigInt::from(0));
}

#[test]
fn part_two_can_answer_zero() {
    // (0 + 3) % 3 == 0 and 0 % 2 == 0.
    let busses = [Bus { period: 2, offset: 0 }, Bus { period: 3, offset: 3 }];
    assert_eq!(to_bigint(&part_two(&busses).unwrap()), BigInt::from(0));
}

#[test]
fn part_two_with_a_leading_unused_slot() {
    assert_eq!(solve("0\nx,7"), BigInt::from(6));
}

#[test]
fn part_two_reports_no_solution() {
    let (_, busses) = read_input("0\n4,6").unwrap();
    assert_eq!(part_two(&busses), Err(ScheduleError::NoSolutionFound));
}

#[test]
fn part_two_answer_fits_every_bus_and_is_least() {
    let (_, busses) = read_input("999\n17,x,13,19").unwrap();
    let t = BigUint::from_slice(&part_two(&busses).unwrap().to_u32_digits());
    assert!(fits(&busses, &t));
    let mut x = BigUint::from(0u32);
    while x < t {
        assert!(!fits(&busses, &x));
        x += 1u32;
    }
}

#[test]
fn part_two_beyond_sixty_four_bits() {
    let input = "0\n1009,1013,1019,1021,1031,1033,1039,1049";
    let (_, busses) = read_input(input).unwrap();
    let t = BigUint::from_slice(&part_two(&busses).unwrap().to_u32_digits());
    assert_eq!(t, "796652474575090575353582".parse::<BigUint>().unwrap());
    assert!(fits(&busses, &t));
}

#[test]
fn big_arithmetic() {
    let a = Big::from_u64(u64::MAX);
    let sum = a.add(&Big::from_u64(1));
    assert_eq!(BigUint::from_slice(&sum.to_u32_digits()), BigUint::from(1u128 << 64));
    let prod = a.mul_u64(3);
    assert_eq!(BigUint::from_slice(&prod.to_u32_digits()), BigUint::from(u64::MAX as u128 * 3));
    assert_eq!(Big::from_u64(5).to_u32_digits(), vec![5]);
    assert!(Big::from_u64(10).plus_is_multiple_of(4, 7));
    assert!(!Big::from_u64(10).plus_is_multiple_of(5, 7));
    assert_eq!(sum.duplicate(), sum);
}

#[test]
fn generator_steps_from_its_start() {
    let mut g = BigIntGenerator::new(Big::from_u64(3), Big::from_u64(4));
    assert_eq!(g.next(), Big::from_u64(3));
    assert_eq!(g.next(), Big::from_u64(7));
    assert_eq!(g.next(), Big::from_u64(11));
}

#[test]
fn solve_for_scans_the_given_sequence() {
    let busses = [Bus { period: 7, offset: 0 }, Bus { period: 13, offset: 1 }];
    let g = BigIntGenerator::new(Big::from_u64(0), Big::from_u64(7));
    let t = bus_schedule::solve_for(&busses, 2, g).unwrap();
    assert_eq!(t, Big::from_u64(77));
    let g = BigIntGenerator::new(Big::from_u64(1), Big::from_u64(7));
    assert_eq!(bus_schedule::solve_for(&busses, 2, g), Err(ScheduleError::NoSolutionFound));
}
