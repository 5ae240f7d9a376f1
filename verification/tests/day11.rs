use daily_puzzles::day11::part_2::{
    number_of_paths_dp, number_of_paths_rec, walk_depth, Memo, MemoEntry,
};
use daily_puzzles::day11::{
    find_outputs, part_1, part_2, remove_device, walk_paths, Connection, Device,
};
use daily_puzzles::error::{Error, Stage};

const FIRST: &str = "\
aaa: you hhh
you: bbb ccc
bbb: ddd eee
ccc: ddd eee fff
ddd: ggg
eee: out
fff: out
ggg: out
hhh: ccc fff iii
iii: out\
";

const SECOND: &str = "\
svr: aaa bbb
aaa: fft
fft: ccc
bbb: tty
tty: ccc
ccc: ddd eee
ddd: hub
hub: fff
eee: dac
dac: fff
fff: ggg hhh
ggg: out
hhh: out\
";

fn wiring(lines: &[(&str, &[&str])]) -> Vec<Connection> {
    lines
        .iter()
        .map(|(device, outputs)| Connection {
            device: Device::named(device),
            outputs: outputs.iter().map(|name| Device::named(name)).collect(),
        })
        .collect()
}

#[test]
fn day_11_part_1_example_works() {
    let expected = 5;
    let solution = part_1::solve(FIRST).unwrap();
    assert_eq!(solution, expected);
}

#[test]
fn day_11_part_2_example_works() {
    let expected = 2;
    let solution = part_2::solve(SECOND).unwrap();
    assert_eq!(solution, expected);
}

#[test]
fn day_11_rejects_text_without_connections() {
    assert_eq!(part_1::solve(""), Err(Error::Parse(Stage::Connections)));
    assert_eq!(part_1::solve("you:out"), Err(Error::Parse(Stage::Connections)));
    assert_eq!(part_2::solve("svr: 1"), Err(Error::Parse(Stage::Connections)));
}

#[test]
fn day_11_reports_a_cycle() {
    assert_eq!(part_1::solve("you: a\na: b\nb: a out"), Err(Error::Cycle));
    assert_eq!(part_2::solve("svr: fft\nfft: dac\ndac: svr out"), Err(Error::Cycle));
}

#[test]
fn day_11_cycle_cut_by_the_end_is_no_cycle() {
    assert_eq!(part_1::solve("you: out\nout: you"), Ok(1));
}

#[test]
fn day_11_later_connection_of_a_device_replaces_the_earlier() {
    assert_eq!(part_1::solve("you: out out\nyou: out"), Ok(1));
    assert_eq!(part_1::solve("you: out\nyou: out out out"), Ok(3));
}

#[test]
fn day_11_paths_have_to_pass_both_stations() {
    assert_eq!(part_2::solve("svr: fft dac\nfft: dac out\ndac: out"), Ok(1));
    assert_eq!(part_2::solve("svr: dac dac\ndac: fft fft fft\nfft: out"), Ok(6));
    assert_eq!(part_2::solve("svr: fft\nfft: out"), Ok(0));
    assert_eq!(part_2::solve("svr: out"), Ok(0));
}

#[test]
fn paths_count_every_way_through() {
    let connections = wiring(&[("a", &["b", "c"]), ("b", &["d"]), ("c", &["d", "d"]), ("d", &["z"])]);
    let (a, z) = (Device::named("a"), Device::named("z"));
    assert_eq!(part_1::number_of_paths(&connections, &a, &z), Ok(3));
    assert_eq!(part_1::number_of_paths(&connections, &z, &z), Ok(1));
    assert_eq!(part_1::number_of_paths(&connections, &z, &a), Ok(0));
    let none: Vec<Device> = Vec::new();
    assert_eq!(part_2::number_of_paths(&connections, &a, &none, &z), Ok(3));
    assert_eq!(number_of_paths_rec(&connections, &a, &none, &z), Ok(3));
    let through_c = vec![Device::named("c")];
    assert_eq!(part_2::number_of_paths(&connections, &a, &through_c, &z), Ok(2));
    assert_eq!(number_of_paths_rec(&connections, &a, &through_c, &z), Ok(2));
    assert_eq!(walk_paths(&connections, &a, &through_c, &z, 2, u64::MAX), Err(Error::Cycle));
    assert_eq!(walk_paths(&connections, &a, &through_c, &z, 3, u64::MAX), Ok(2));
    assert_eq!(walk_paths(&connections, &a, &none, &z, 3, 2), Err(Error::Overflow));
}

#[test]
fn memo_keeps_what_the_walk_found() {
    let connections = wiring(&[("a", &["b", "c"]), ("b", &["d"]), ("c", &["d", "d"]), ("d", &["z"])]);
    let (a, z) = (Device::named("a"), Device::named("z"));
    let none: Vec<Device> = Vec::new();
    let mut memo = Memo::new();
    assert_eq!(number_of_paths_dp(&mut memo, &connections, &a, &none, &z, 4), Ok(3));
    assert_eq!(memo.get(&Device::named("c"), &none), Some(2));
    assert_eq!(memo.get(&Device::named("d"), &none), Some(1));
    assert_eq!(memo.get(&Device::named("q"), &none), None);
    // With the memo filled, no depth is needed any more.
    assert_eq!(number_of_paths_dp(&mut memo, &connections, &a, &none, &z, 0), Ok(3));
}

fn doubling(steps: usize) -> String {
    let mut text = String::from("svr: fft fft\nfft: dac dac\ndac: a a\n");
    let mut name = String::from("a");
    for _ in 0..steps {
        let next = format!("{name}b");
        text.push_str(&format!("{name}: {next} {next}\n"));
        name = next;
    }
    text.push_str(&format!("{name}: out"));
    text
}

#[test]
fn memo_counts_more_paths_than_a_walk_could_follow() {
    assert_eq!(part_2::solve(&doubling(40)), Ok(1 << 43));
    assert_eq!(part_2::solve(&doubling(60)), Ok(1 << 63));
    assert_eq!(part_2::solve(&doubling(61)), Err(Error::Overflow));
}

#[test]
fn outputs_and_stations() {
    let connections = wiring(&[("a", &["b"]), ("a", &["c", "d"])]);
    let found = find_outputs(&connections, &Device::named("a")).unwrap();
    assert_eq!(found.len(), 2);
    assert!(found[0].same(&Device::named("c")));
    assert!(find_outputs(&connections, &Device::named("b")).is_none());
    let list = vec![Device::named("x"), Device::named("y"), Device::named("x")];
    let rest = remove_device(&list, &Device::named("x"));
    assert_eq!(rest.len(), 1);
    assert!(rest[0].same(&Device::named("y")));
    assert_eq!(walk_depth(13, 2), 39);
    assert_eq!(walk_depth(usize::MAX, 1), usize::MAX);
}

#[test]
fn memo_keeps_one_count_for_a_key() {
    let none: Vec<Device> = Vec::new();
    let through = vec![Device::named("c")];
    let mut memo = Memo::new();
    memo.insert(&Device::named("a"), &none, 5);
    memo.insert(&Device::named("a"), &through, 6);
    memo.insert(&Device::named("b"), &none, 7);
    assert_eq!(memo.entries.len(), 3);
    memo.insert(&Device::named("a"), &none, 8);
    assert_eq!(memo.entries.len(), 3);
    assert_eq!(memo.get(&Device::named("a"), &none), Some(8));
    assert_eq!(memo.get(&Device::named("a"), &through), Some(6));
    assert_eq!(memo.get(&Device::named("b"), &none), Some(7));
    assert_eq!(memo.find(&Device::named("b"), &none), Some(2));
    assert_eq!(memo.find(&Device::named("b"), &through), None);
    // Where a memo holds a key twice, the first count is the one that is kept.
    let twice = Memo {
        entries: vec![
            MemoEntry { device: Device::named("a"), must_pass: vec![], paths: 1 },
            MemoEntry { device: Device::named("a"), must_pass: vec![], paths: 2 },
        ],
    };
    assert_eq!(twice.get(&Device::named("a"), &none), Some(1));
}

#[test]
fn walk_with_memo_returns_what_is_kept_and_keeps_what_it_finds() {
    let connections = wiring(&[("a", &["b", "c"]), ("b", &["d"]), ("c", &["d", "d"]), ("d", &["z"])]);
    let (a, z) = (Device::named("a"), Device::named("z"));
    let none: Vec<Device> = Vec::new();
    // A count that is kept is returned as it is, whatever it is, and the memo is left alone.
    let mut memo = Memo::new();
    memo.insert(&Device::named("q"), &none, 11);
    memo.insert(&a, &none, 99);
    assert_eq!(number_of_paths_dp(&mut memo, &connections, &a, &none, &z, 0), Ok(99));
    assert_eq!(memo.entries.len(), 2);
    // A count that is found is kept; the entries that were there stay at their places.
    let mut memo = Memo::new();
    memo.insert(&Device::named("q"), &none, 11);
    memo.insert(&Device::named("c"), &none, 40);
    assert_eq!(number_of_paths_dp(&mut memo, &connections, &a, &none, &z, 4), Ok(41));
    assert_eq!(memo.get(&a, &none), Some(41));
    assert_eq!(memo.get(&Device::named("q"), &none), Some(11));
    assert_eq!(memo.find(&Device::named("q"), &none), Some(0));
    assert_eq!(memo.find(&Device::named("c"), &none), Some(1));
    // What is added has devices of the list still to pass.
    let through = vec![Device::named("c"), Device::named("x")];
    let mut memo = Memo::new();
    assert_eq!(number_of_paths_dp(&mut memo, &connections, &a, &through, &z, 8), Ok(0));
    assert!(memo.entries.iter().all(|entry| entry.must_pass.iter().all(|d| through.iter().any(|t| t.same(d)))));
    assert_eq!(memo.get(&a, &through), Some(0));
    // A walk that runs into its bound keeps nothing for its start.
    let mut memo = Memo::new();
    assert_eq!(number_of_paths_dp(&mut memo, &connections, &a, &none, &z, 1), Err(Error::Cycle));
    assert_eq!(memo.get(&a, &none), None);
}

#[test]
fn memo_grows_by_what_the_walk_reaches() {
    let connections = wiring(&[("a", &["b", "c"]), ("b", &["d"]), ("c", &["d"]), ("d", &["z"]), ("q", &["z"])]);
    let (a, z) = (Device::named("a"), Device::named("z"));
    let through: Vec<Device> = ["d", "x", "b", "y"].iter().map(|name| Device::named(name)).collect();
    let mut memo = Memo::new();
    memo.insert(&Device::named("q"), &through, 7);
    assert_eq!(number_of_paths_dp(&mut memo, &connections, &a, &through, &z, 8), Ok(0));
    let keys: Vec<(String, Vec<String>)> = memo
        .entries
        .iter()
        .map(|entry| {
            let name = String::from_utf8(entry.device.name.clone()).unwrap();
            let list = entry.must_pass.iter().map(|d| String::from_utf8(d.name.clone()).unwrap()).collect();
            (name, list)
        })
        .collect();
    let key = |name: &str, list: &[&str]| (name.to_string(), list.iter().map(|d| d.to_string()).collect::<Vec<_>>());
    assert_eq!(
        keys,
        vec![
            key("q", &["d", "x", "b", "y"]),
            key("z", &["x", "y"]),
            key("d", &["d", "x", "y"]),
            key("b", &["d", "x", "b", "y"]),
            key("z", &["x", "b", "y"]),
            key("d", &["d", "x", "b", "y"]),
            key("c", &["d", "x", "b", "y"]),
            key("a", &["d", "x", "b", "y"]),
        ]
    );
}

#[test]
fn count_does_not_depend_on_the_order_of_the_devices_to_pass() {
    let connections = wiring(&[("a", &["b", "c"]), ("b", &["d"]), ("c", &["d", "d"]), ("d", &["z", "e"]), ("e", &["z"])]);
    let (a, z) = (Device::named("a"), Device::named("z"));
    let lists: [&[&str]; 6] = [&[], &["c"], &["c", "e"], &["e", "c"], &["e", "c", "e", "c"], &["b", "c"]];
    let counts: Vec<_> = lists
        .iter()
        .map(|names| {
            let list: Vec<Device> = names.iter().map(|name| Device::named(name)).collect();
            let walked = number_of_paths_rec(&connections, &a, &list, &z);
            assert_eq!(part_2::number_of_paths(&connections, &a, &list, &z), walked);
            walked
        })
        .collect();
    assert_eq!(counts, vec![Ok(6), Ok(4), Ok(2), Ok(2), Ok(2), Ok(0)]);
}

#[test]
fn count_grows_with_the_devices_to_pass_only_where_the_end_has_outputs() {
    // The walk goes on from the end while there is something to pass.
    let connections = wiring(&[("z", &["x", "y"]), ("x", &["q"]), ("y", &["q"]), ("q", &["z"])]);
    let z = Device::named("z");
    assert_eq!(number_of_paths_rec(&connections, &z, &vec![], &z), Ok(1));
    assert_eq!(number_of_paths_rec(&connections, &z, &vec![Device::named("q")], &z), Ok(2));
}
