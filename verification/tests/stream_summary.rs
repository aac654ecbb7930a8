use fast_estimate::lines::trim_newline;
use fast_estimate::stream_summary::{StreamSummary, StreamSummaryError};

fn offer(n: usize, s: &mut StreamSummary, data: &str) {
    for _ in 0..n {
        s.offer(data);
    }
}

fn top_items(summary: &StreamSummary) -> Vec<&String> {
    summary.estimate_top().iter().map(|i| &i.data).collect()
}

fn top_counts(summary: &StreamSummary) -> Vec<usize> {
    summary.estimate_top().iter().map(|i| i.count).collect()
}

fn trim(line: &str) -> String {
    let mut line = line.to_string();
    trim_newline(&mut line);
    line
}

#[test]
fn shound() {
    let s = StreamSummary::new();
    assert_eq!(0, s.estimate_top().len());
}

#[test]
fn should_export_top_1() {
    let mut s = StreamSummary::new();
    s.offer("Hello");
    let top = s.estimate_top();
    assert_eq!(1, top.len());
    assert_eq!("Hello", top[0].data);
}

#[test]
fn should_export_top_2() {
    let mut s = StreamSummary::new();
    s.offer("Hello");

    s.offer("world");
    s.offer("world");

    assert_eq!(vec!["world", "Hello"], top_items(&s));
}

#[test]
fn export_less_than_visited() {
    let mut s = StreamSummary::with_capacity(2).unwrap();

    offer(4, &mut s, "foo");
    offer(2, &mut s, "bar");
    offer(1, &mut s, "baz");

    assert_eq!(vec!("foo", "baz"), top_items(&s));
}

#[test]
fn replace_values() {
    let mut s = StreamSummary::with_capacity(2).unwrap();

    for i in 1..100 {
        s.offer(&i.to_string());
    }
}

#[test]
fn should_count_occurrences_correctly() {
    let mut s = StreamSummary::new();
    for i in 0..10 {
        assert_eq!(i + 1, s.offer("Hello"));
    }
}

#[test]
fn zero_capacity_is_refused() {
    assert_eq!(StreamSummary::with_capacity(0).err(), Some(StreamSummaryError::ZeroCapacity));
    assert!(StreamSummary::with_capacity(1).is_ok());
}

#[test]
fn first_occurrence() {
    let mut s = StreamSummary::new();
    assert_eq!(1, s.offer("Hello"));
    let top = s.estimate_top();
    assert_eq!(1, top.len());
    assert_eq!("Hello", top[0].data);
    assert_eq!(1, top[0].count);
    assert_eq!(0, top[0].epsilon);
}

#[test]
fn ordered_top_2_with_counts() {
    let mut s = StreamSummary::new();
    s.offer("Hello");
    s.offer("world");
    s.offer("world");
    assert_eq!(vec!["world", "Hello"], top_items(&s));
    assert_eq!(vec![2, 1], top_counts(&s));
}

#[test]
fn eviction_takes_the_least_frequent_line() {
    let mut s = StreamSummary::with_capacity(2).unwrap();
    offer(4, &mut s, "foo");
    offer(2, &mut s, "bar");
    assert_eq!(1, s.offer("baz"));

    let top = s.estimate_top();
    assert_eq!(2, top.len());
    assert_eq!("foo", top[0].data);
    assert_eq!(4, top[0].count);
    assert_eq!(0, top[0].epsilon);
    // "baz" took the place of "bar", which had count 2
    assert_eq!("baz", top[1].data);
    assert_eq!(3, top[1].count);
    assert_eq!(2, top[1].epsilon);
}

#[test]
fn unbounded_stream_stays_within_capacity() {
    let mut s = StreamSummary::with_capacity(2).unwrap();
    for i in 1..100 {
        assert_eq!(1, s.offer(&i.to_string()));
        assert!(s.estimate_top().len() <= 2);
    }
    let top = s.estimate_top();
    assert_eq!(2, top.len());
    for item in top {
        assert!(item.epsilon >= 1);
    }
}

#[test]
fn the_head_of_the_least_bucket_goes_first() {
    let mut s = StreamSummary::with_capacity(3).unwrap();
    s.offer("a");
    s.offer("b");
    s.offer("c");
    // all three have count 1; "a" reached it first
    assert_eq!(1, s.offer("d"));
    assert_eq!(vec!["d", "b", "c"], top_items(&s));
    assert_eq!(vec![2, 1, 1], top_counts(&s));
    // "b" is the head of the bucket of count 1 now
    assert_eq!(1, s.offer("e"));
    assert_eq!(vec!["d", "e", "c"], top_items(&s));
    // "c" moves up to the end of the bucket of count 2, behind "d" and "e"
    assert_eq!(2, s.offer("c"));
    assert_eq!(vec![2, 2, 2], top_counts(&s));
    // "d" is the head of the least bucket
    assert_eq!(1, s.offer("f"));
    let top = s.estimate_top();
    assert_eq!("f", top[0].data);
    assert_eq!(3, top[0].count);
    assert_eq!(2, top[0].epsilon);
    assert_eq!(vec![3, 2, 2], top_counts(&s));
    let lines: Vec<&str> = top.iter().map(|i| i.data.as_str()).collect();
    assert!(lines.contains(&"e"));
    assert!(lines.contains(&"c"));
    assert!(!lines.contains(&"d"));
}

#[test]
fn a_replaced_line_comes_back_as_a_new_one() {
    let mut s = StreamSummary::with_capacity(1).unwrap();
    offer(5, &mut s, "a");
    assert_eq!(1, s.offer("b"));
    {
        let top = s.estimate_top();
        assert_eq!(1, top.len());
        assert_eq!("b", top[0].data);
        assert_eq!(6, top[0].count);
        assert_eq!(5, top[0].epsilon);
    }
    assert_eq!(7, s.offer("b"));
    assert_eq!(1, s.offer("a"));
    let top = s.estimate_top();
    assert_eq!("a", top[0].data);
    assert_eq!(8, top[0].count);
    assert_eq!(7, top[0].epsilon);
}

#[test]
fn count_less_epsilon_is_no_more_than_the_occurrences() {
    let mut s = StreamSummary::with_capacity(2).unwrap();
    for line in ["a", "a", "b", "b", "y", "y", "y", "y", "y"].iter() {
        s.offer(line);
    }
    let top = s.estimate_top();
    // "y" took the place of "a", which had count 2, and occurred 5 times
    assert_eq!("y", top[0].data);
    assert_eq!(7, top[0].count);
    assert_eq!(2, top[0].epsilon);
    assert!(top[0].count - top[0].epsilon <= 5);
    assert!(5 <= top[0].count);
    assert_eq!("b", top[1].data);
    assert_eq!(2, top[1].count);
    assert_eq!(0, top[1].epsilon);
}

#[test]
fn estimates_bracket_the_true_counts() {
    let capacity = 3;
    let mut s = StreamSummary::with_capacity(capacity).unwrap();
    let mut seen: Vec<(String, usize)> = Vec::new();
    for i in 0..300 {
        let line = format!("line{}", (i * i + 3 * i) % 7);
        match seen.iter().position(|entry| entry.0 == line) {
            Some(at) => seen[at].1 += 1,
            None => seen.push((line.clone(), 1)),
        }
        s.offer(&line);
        for item in s.estimate_top() {
            let at = seen.iter().position(|entry| entry.0 == item.data).unwrap();
            let occurred = seen[at].1;
            assert!(item.count - item.epsilon <= occurred);
            assert!(occurred <= item.count);
        }
    }
}

#[test]
fn counts_and_epsilons_stay_in_bounds() {
    let capacity = 5;
    let mut s = StreamSummary::with_capacity(capacity).unwrap();
    let mut offered = 0;
    for round in 0..40 {
        for i in 0..(round % 9 + 1) {
            s.offer(&format!("line{}", (i * 7 + round) % 13));
            offered += 1;

            let top = s.estimate_top();
            assert!(top.len() <= capacity);
            let mut known = 0;
            let mut counts = 0;
            for k in 0..top.len() {
                assert!(top[k].count >= 1);
                assert!(top[k].count >= top[k].epsilon);
                if k > 0 {
                    assert!(top[k - 1].count >= top[k].count);
                }
                known += top[k].count - top[k].epsilon;
                counts += top[k].count;
            }
            assert!(known <= offered);
            assert_eq!(counts, offered);
        }
    }
}

#[test]
fn a_frequent_line_is_tracked() {
    let capacity = 4;
    let mut s = StreamSummary::with_capacity(capacity).unwrap();
    let mut offered = 0;
    let mut hits = 0;
    for i in 0..400 {
        // every third line is the frequent one, the others never repeat
        if i % 3 == 0 {
            s.offer("often");
            hits += 1;
        } else {
            s.offer(&format!("once{}", i));
        }
        offered += 1;
        if hits * capacity > offered {
            let top = s.estimate_top();
            let found: Vec<usize> =
                top.iter().filter(|item| item.data == "often").map(|item| item.count).collect();
            assert_eq!(1, found.len());
            assert!(found[0] >= hits);
        }
    }
    assert_eq!("often", s.estimate_top()[0].data);
}

#[test]
fn top_holds_every_tracked_line_once_in_descending_order() {
    let mut s = StreamSummary::with_capacity(100).unwrap();
    // line i is offered (i * 37) % 23 + 1 times
    for i in 0..57 {
        offer((i * 37) % 23 + 1, &mut s, &format!("line{}", i));
    }
    let top = s.estimate_top();
    assert_eq!(57, top.len());
    for k in 1..top.len() {
        assert!(top[k - 1].count >= top[k].count);
    }
    for i in 0..57 {
        let line = format!("line{}", i);
        let found: Vec<usize> =
            top.iter().filter(|item| item.data == line).map(|item| item.count).collect();
        assert_eq!(vec![(i * 37) % 23 + 1], found);
    }
    assert_eq!(23, top[0].count);
    assert_eq!(1, top[56].count);
}

#[test]
fn lines_of_the_same_count_keep_their_order() {
    let mut s = StreamSummary::new();
    s.offer("x");
    s.offer("y");
    s.offer("z");
    s.offer("y");
    assert_eq!(vec!["y", "x", "z"], top_items(&s));
    let again = top_items(&s);
    assert_eq!(again, top_items(&s));
}

#[test]
fn line_endings_are_cut_off() {
    assert_eq!("Hello", trim("Hello\n"));
    assert_eq!("Hello", trim("Hello\r\n"));
    assert_eq!("Hello", trim("Hello"));
    assert_eq!("", trim("\n"));
    assert_eq!("", trim("\r\n"));
    assert_eq!("", trim(""));
    assert_eq!("Hello\r", trim("Hello\r"));
    assert_eq!("Hello\n", trim("Hello\n\n"));
    assert_eq!("Hello\r", trim("Hello\r\r\n"));
    assert_eq!("Hello\n\r", trim("Hello\n\r"));
    assert_eq!("zażółć", trim("zażółć\r\n"));
    assert_eq!("\r", trim("\r"));
}
