use busy::category::Category;
use busy::codec::chars::{chars_of, put_all, string_of};
use busy::codec::decimal::{read_number, read_signed, write_number, write_signed};
use busy::codec::frame::{put_token, split_tokens, take_token};
use busy::codec::snapshot::{decode, encode};
use busy::error::Error;
use busy::ident::parse_id;
use busy::store::{Snapshot, Store};
use busy::task::{Task, TaskState};
use busy::time::{DateTimeInterval, Timestamp};

fn at(millis: i64) -> Timestamp {
    Timestamp::new(millis, 0).unwrap()
}

fn chars(s: &str) -> Vec<char> {
    s.chars().collect()
}

fn number(n: u64) -> String {
    let mut out = Vec::new();
    write_number(&mut out, n);
    out.into_iter().collect()
}

fn whole(n: i64) -> String {
    let mut out = Vec::new();
    write_signed(&mut out, n);
    out.into_iter().collect()
}

fn sample() -> Snapshot {
    Snapshot {
        tasks: vec![
            Task::finished(1, 10, "write, then: test\nit", vec![20, 21], at(1_577_836_800_000), at(1_577_840_400_500)),
            Task::new(
                2,
                11,
                "",
                Vec::new(),
                DateTimeInterval {
                    start_time: Timestamp::new(1_600_000_000_123, 7_200).unwrap(),
                    stop_time: None,
                },
                -1_500,
                TaskState::Paused,
                Some(Timestamp::new(1_600_000_100_000, -3_600).unwrap()),
            ),
        ],
        projects: vec![Category::new(10, "büsy"), Category::new(11, "3:x,")],
        tags: vec![Category::new(20, "deep"), Category::new(21, "")],
    }
}

#[test]
fn numbers_are_written_in_decimal() {
    assert_eq!(number(0), "0");
    assert_eq!(number(9), "9");
    assert_eq!(number(10), "10");
    assert_eq!(number(1_234_567_890), "1234567890");
    assert_eq!(number(u64::MAX), "18446744073709551615");
    assert_eq!(whole(0), "0");
    assert_eq!(whole(-1), "-1");
    assert_eq!(whole(i64::MAX), "9223372036854775807");
    assert_eq!(whole(i64::MIN), "-9223372036854775808");
}

#[test]
fn numbers_are_read_from_digits_only() {
    let read = |s: &str| read_number(&chars(s), 0, s.chars().count());
    assert_eq!(read("0"), Some(0));
    assert_eq!(read("007"), Some(7));
    assert_eq!(read("18446744073709551615"), Some(u64::MAX));
    assert_eq!(read("18446744073709551616"), None);
    assert_eq!(read("000000000000000000001"), None);
    assert_eq!(read(""), None);
    assert_eq!(read("12a"), None);
    assert_eq!(read("-1"), None);
    assert_eq!(read("+1"), None);
    assert_eq!(read("١"), None);
    assert_eq!(read_number(&chars("x42y"), 1, 3), Some(42));
    let signed = |s: &str| read_signed(&chars(s), 0, s.chars().count());
    assert_eq!(signed("-9223372036854775808"), Some(i64::MIN));
    assert_eq!(signed("9223372036854775807"), Some(i64::MAX));
    assert_eq!(signed("9223372036854775808"), None);
    assert_eq!(signed("-9223372036854775809"), None);
    assert_eq!(signed("-0"), Some(0));
    assert_eq!(signed("-"), None);
    assert_eq!(signed("--1"), None);
    assert_eq!(signed(""), None);
}

#[test]
fn tokens_are_framed_by_their_length() {
    let mut out = Vec::new();
    put_token(&mut out, &chars("busy"));
    put_token(&mut out, &chars(""));
    put_token(&mut out, &chars("a,b:c"));
    put_token(&mut out, &chars("héllo wörld"));
    let text: String = out.iter().collect();
    assert_eq!(text, "4:busy,0:,5:a,b:c,11:héllo wörld,");
    assert_eq!(split_tokens(&out), Some(vec![chars("busy"), chars(""), chars("a,b:c"), chars("héllo wörld")]));
    assert_eq!(take_token(&out, 0), Some((chars("busy"), 7)));
    assert_eq!(take_token(&out, 7), Some((chars(""), 10)));
    assert_eq!(take_token(&out, 1), None);
    assert_eq!(take_token(&out, out.len()), None);
}

#[test]
fn text_that_is_not_framed_has_no_tokens() {
    assert_eq!(split_tokens(&chars("")), Some(Vec::new()));
    assert_eq!(split_tokens(&chars("4:busy")), None);
    assert_eq!(split_tokens(&chars("4:busy;")), None);
    assert_eq!(split_tokens(&chars("5:busy,")), None);
    assert_eq!(split_tokens(&chars("3:busy,")), None);
    assert_eq!(split_tokens(&chars(":busy,")), None);
    assert_eq!(split_tokens(&chars("4busy,")), None);
    assert_eq!(split_tokens(&chars("4:busy, ")), None);
    assert_eq!(split_tokens(&chars("99999999999999999999999:x,")), None);
    assert_eq!(split_tokens(&chars("18446744073709551615:x,")), None);
}

#[test]
fn characters_and_strings_convert_both_ways() {
    assert_eq!(chars_of("añb"), vec!['a', 'ñ', 'b']);
    assert_eq!(chars_of(""), Vec::<char>::new());
    assert_eq!(string_of(&chars("añbc"), 1, 3), "ñb");
    assert_eq!(string_of(&chars("abc"), 2, 2), "");
    let mut out = chars("ab");
    put_all(&mut out, &chars("cd"));
    assert_eq!(out, chars("abcd"));
}

#[test]
fn identifiers_are_read_from_their_text_only() {
    assert_eq!(parse_id(&chars("a1b2c3d4-e5f6-0718-293a-4b5c6d7e8f90")), Some(0xa1b2_c3d4_e5f6_0718_293a_4b5c_6d7e_8f90));
    assert_eq!(parse_id(&chars("00000000-0000-0000-0000-000000000000")), Some(0));
    assert_eq!(parse_id(&chars("ffffffff-ffff-ffff-ffff-ffffffffffff")), Some(u128::MAX));
    assert_eq!(parse_id(&chars("A1B2C3D4-E5F6-0718-293A-4B5C6D7E8F90")), None);
    assert_eq!(parse_id(&chars("a1b2c3d4e5f60718293a4b5c6d7e8f90")), None);
    assert_eq!(parse_id(&chars("a1b2c3d4-e5f6-0718-293a-4b5c6d7e8f9")), None);
    assert_eq!(parse_id(&chars("a1b2c3d4-e5f6-0718-293a-4b5c6d7e8f900")), None);
    assert_eq!(parse_id(&chars("a1b2c3d4-e5f6-0718-293a-4b5c6d7e8fg0")), None);
    assert_eq!(parse_id(&chars("a1b2c3d4-e5f6-0718-293a04b5c6d7e8f90")), None);
    assert_eq!(parse_id(&chars("a1b2c3d4-e5f6-0718-293--4b5c6d7e8f90")), None);
    assert_eq!(parse_id(&chars("")), None);
}

#[test]
fn snapshot_is_written_as_expected() {
    let small = Snapshot {
        tasks: vec![Task::finished(2, 1, "t", vec![3], at(0), at(1_500))],
        projects: vec![Category::new(1, "p")],
        tags: vec![Category::new(3, "g")],
    };
    let expected = concat_all(&[
        "4:busy,1:1,",
        "36:00000000-0000-0000-0000-000000000001,1:p,",
        "1:1,",
        "36:00000000-0000-0000-0000-000000000003,1:g,",
        "1:1,",
        "36:00000000-0000-0000-0000-000000000002,",
        "36:00000000-0000-0000-0000-000000000001,",
        "1:t,7:stopped,",
        "29:1970-01-01T00:00:00.000+00:00,",
        "29:1970-01-01T00:00:01.500+00:00,",
        "1:0,0:,1:1,",
        "36:00000000-0000-0000-0000-000000000003,",
    ]);
    assert_eq!(encode(&small), Ok(expected));
    assert_eq!(encode(&Snapshot::new()), Ok("4:busy,1:0,1:0,1:0,".to_string()));
}

fn concat_all(parts: &[&str]) -> String {
    let mut out = String::new();
    for p in parts {
        out.push_str(p);
    }
    out
}

#[test]
fn snapshot_is_read_back_as_it_was() {
    let snapshot = sample();
    let text = encode(&snapshot).unwrap();
    assert_eq!(decode(&text), Ok(snapshot.clone()));
    assert_eq!(encode(&decode(&text).unwrap()), Ok(text));
    assert_eq!(decode(&encode(&Snapshot::new()).unwrap()), Ok(Snapshot::new()));
}

#[test]
fn store_is_restored_from_what_it_saved() {
    let store = Store::from_snapshot(sample()).unwrap();
    let text = store.save().unwrap();
    assert_eq!(store.save().unwrap(), text);
    let mut other = Store::new();
    assert_eq!(other.restore(&text), Ok(()));
    assert_eq!(other, store);
    assert_eq!(other.save().unwrap(), text);
}

#[test]
fn corrupted_text_leaves_the_store_untouched() {
    let mut store = Store::from_snapshot(sample()).unwrap();
    let text = store.save().unwrap();
    let before = store.snapshot();
    let cut: String = text.chars().take(text.chars().count() - 1).collect();
    assert_eq!(store.restore(&cut), Err(Error::Corruption));
    let half: String = text.chars().take(text.chars().count() / 2).collect();
    assert_eq!(store.restore(&half), Err(Error::Corruption));
    assert_eq!(store.restore(""), Err(Error::Corruption));
    assert_eq!(store.restore("{\"tasks\": []}"), Err(Error::Corruption));
    assert_eq!(store.restore("4:busy,1:0,1:0,1:0,1:0,"), Err(Error::Corruption));
    assert_eq!(store.restore("4:busy,1:0,1:0,"), Err(Error::Corruption));
    assert_eq!(store.restore("4:idle,1:0,1:0,1:0,"), Err(Error::Corruption));
    assert_eq!(store.restore("4:busy,1:1,1:0,1:0,"), Err(Error::Corruption));
    let same_name = "4:busy,1:2,36:00000000-0000-0000-0000-000000000001,1:p,36:00000000-0000-0000-0000-000000000002,1:p,1:0,1:0,";
    assert!(decode(same_name).is_ok());
    assert_eq!(store.restore(same_name), Err(Error::Corruption));
    assert_eq!(store.snapshot(), before);
    assert_eq!(store.restore("4:busy,1:0,1:0,1:0,"), Ok(()));
    assert_eq!(store.snapshot(), Snapshot::new());
}

#[test]
fn task_fields_are_checked_when_read() {
    let good = encode(&Snapshot {
        tasks: vec![Task::finished(2, 1, "t", Vec::new(), at(0), at(1_500))],
        projects: Vec::new(),
        tags: Vec::new(),
    })
    .unwrap();
    assert!(decode(&good).is_ok());
    assert_eq!(decode(&good.replace("7:stopped", "7:Stopped")), Err(Error::Corruption));
    assert_eq!(decode(&good.replace("7:stopped", "6:paused")).map(|s| s.tasks[0].state()), Ok(TaskState::Paused));
    assert_eq!(decode(&good.replace("29:1970-01-01T00:00:00.000+00:00", "10:1970-01-01")), Err(Error::Corruption));
    assert_eq!(decode(&good.replace("29:1970-01-01T00:00:00.000+00:00", "0:")), Err(Error::Corruption));
    assert_eq!(decode(&good.replace("1:0,0:,1:0,", "1:x,0:,1:0,")), Err(Error::Corruption));
    assert_eq!(decode(&good.replace("1:0,0:,1:0,", "1:0,0:,1:1,")), Err(Error::Corruption));
    assert_eq!(
        decode(&good.replace("1:0,0:,1:0,", "3:-25,0:,1:0,")).map(|s| s.tasks[0].paused_duration()),
        Ok(-25)
    );
}

#[test]
fn timestamp_that_is_not_read_back_is_not_saved() {
    let odd = Timestamp::new(0, 30).unwrap();
    assert_eq!(odd.printed(), None);
    assert!(odd.to_text().is_some());
    let far = Timestamp::new(8_000_000_000_000_001, 0).unwrap();
    assert_eq!(far.to_text(), None);
    let snapshot = Snapshot {
        tasks: vec![Task::started(1, 1, "t", Vec::new(), odd)],
        projects: Vec::new(),
        tags: Vec::new(),
    };
    assert_eq!(encode(&snapshot), Err(Error::Validation));
    assert_eq!(Store::from_snapshot(snapshot).unwrap().save(), Err(Error::Validation));
}

#[test]
fn timestamps_are_written_with_their_offset() {
    let t = Timestamp::new(1_600_000_000_123, 7_200).unwrap();
    assert_eq!(t.to_text(), Some("2020-09-13T14:26:40.123+02:00".to_string()));
    assert_eq!(t.printed(), t.to_text());
    assert_eq!(Timestamp::parse_text("2020-09-13T14:26:40.123+02:00"), Some(t));
    assert_eq!(Timestamp::parse_text("2020-09-13T12:26:40.123Z"), Timestamp::new(1_600_000_000_123, 0));
    assert_eq!(Timestamp::parse_text("2020-09-13 14:26"), None);
    assert_eq!(Timestamp::parse_text(""), None);
    let early = Timestamp::new(-1, -3_600).unwrap();
    assert_eq!(early.printed(), Some("1969-12-31T22:59:59.999-01:00".to_string()));
}
