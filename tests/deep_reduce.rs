use std::collections::BTreeMap;
use std::marker::PhantomData;
use std::ops::ControlFlow;
use std::sync::Mutex;

use serde::de::{Deserialize, Deserializer, SeqAccess, Visitor};
use serde_deser_iter::deep::{
    Aggregator, Find, FindAggregator, Fold, FoldAggregator, ForEach, ForEachAggregator, Pull,
    Reduction, StreamSeqDeser, TryFold, TryFoldAggregator,
};

type Record = BTreeMap<String, String>;

fn record(v: &str) -> Record {
    let mut r = Record::new();
    r.insert("v".to_string(), v.to_string());
    r
}

struct CountRust;

impl FoldAggregator for CountRust {
    type Item = Record;
    type Acc = u32;

    fn init() -> u32 {
        0
    }

    fn f(acc: u32, item: Record) -> u32 {
        if item.get("v").map(|s| s.as_str()) == Some("rust") {
            acc + 1
        } else {
            acc
        }
    }
}

struct IsGo;

impl FindAggregator for IsGo {
    type Item = Record;

    fn f(item: &Record) -> bool {
        item.get("v").map(|s| s.as_str()) == Some("go")
    }
}

struct Digits;

impl FoldAggregator for Digits {
    type Item = u32;
    type Acc = u64;

    fn init() -> u64 {
        7
    }

    fn f(acc: u64, item: u32) -> u64 {
        acc * 10 + item as u64
    }
}

struct SumUntilZero;

impl TryFoldAggregator for SumUntilZero {
    type Item = u32;
    type Acc = u32;
    type Break = u32;

    fn init() -> u32 {
        0
    }

    fn f(acc: u32, item: u32) -> ControlFlow<u32, u32> {
        if item == 0 {
            ControlFlow::Break(acc)
        } else {
            ControlFlow::Continue(acc + item)
        }
    }
}

static APPLIED: Mutex<Vec<u32>> = Mutex::new(Vec::new());

struct Record10;

impl ForEachAggregator for Record10 {
    type Item = u32;

    fn f(item: u32) {
        APPLIED.lock().unwrap().push(item + 10);
    }
}

/// Feeds the given pulls to a reduction; returns the outcome and how many
/// pulls it asked for.
fn drive<I: Aggregator>(pulls: Vec<Result<Option<I::Item>, String>>) -> (Result<I::Value, String>, usize) {
    let mut run = Reduction::<I>::start();
    let mut asked = 0;
    for pulled in pulls {
        asked += 1;
        match run.on_pull(pulled) {
            Pull::Next(r) => run = r,
            Pull::Done(v) => return (Ok(v), asked),
            Pull::Failed(e) => return (Err(e), asked),
        }
    }
    panic!("the reduction asked for more than was given");
}

fn elements<T>(items: Vec<T>) -> Vec<Result<Option<T>, String>> {
    let mut pulls: Vec<Result<Option<T>, String>> = items.into_iter().map(|x| Ok(Some(x))).collect();
    pulls.push(Ok(None));
    pulls
}

struct Reduced<I: Aggregator>(StreamSeqDeser<I>);

struct Drive<I>(PhantomData<I>);

impl<'de, I: Aggregator> Visitor<'de> for Drive<I>
where
    I::Item: Deserialize<'de>,
{
    type Value = I::Value;

    fn expecting(&self, formatter: &mut std::fmt::Formatter) -> std::fmt::Result {
        formatter.write_str("a sequence")
    }

    fn visit_seq<A: SeqAccess<'de>>(self, mut seq: A) -> Result<I::Value, A::Error> {
        let mut run = Reduction::<I>::start();
        loop {
            match run.on_pull(seq.next_element()) {
                Pull::Next(r) => run = r,
                Pull::Done(v) => return Ok(v),
                Pull::Failed(e) => return Err(e),
            }
        }
    }
}

impl<'de, I: Aggregator> Deserialize<'de> for Reduced<I>
where
    I::Item: Deserialize<'de>,
{
    fn deserialize<D: Deserializer<'de>>(d: D) -> Result<Self, D::Error> {
        let v = d.deserialize_seq(Drive::<I>(PhantomData))?;
        Ok(Reduced(StreamSeqDeser::new(v)))
    }
}

const RECORDS: &str = r#"[{"v":"rust"},{"v":"go"},{"v":"rust"}]"#;

#[test]
fn fold_counts_rust_records() {
    let r: Reduced<Fold<CountRust>> = serde_json::from_str(RECORDS).unwrap();
    assert_eq!(*r.0.value(), 2);
    assert_eq!(*r.0, 2);
    assert_eq!(r.0.into_inner(), 2);
}

#[test]
fn fold_counts_from_pulls() {
    let (r, asked) = drive::<Fold<CountRust>>(elements(vec![record("rust"), record("go"), record("rust")]));
    assert_eq!(r, Ok(2));
    assert_eq!(asked, 4);
}

#[test]
fn fold_keeps_order() {
    let (r, _) = drive::<Fold<Digits>>(elements(vec![1, 2, 3]));
    assert_eq!(r, Ok(7123));
    let (r, _) = drive::<Fold<Digits>>(elements(vec![3, 2, 1]));
    assert_eq!(r, Ok(7321));
}

#[test]
fn find_returns_second_record() {
    let r: Reduced<Find<IsGo>> = serde_json::from_str(RECORDS).unwrap();
    assert_eq!(r.0.into_inner(), Some(record("go")));
}

#[test]
fn find_still_pulls_the_rest() {
    let (r, asked) = drive::<Find<IsGo>>(elements(vec![record("rust"), record("go"), record("rust")]));
    assert_eq!(r, Ok(Some(record("go"))));
    assert_eq!(asked, 4);
}

#[test]
fn find_returns_first_of_two_matches() {
    let mut second = record("go");
    second.insert("n".to_string(), "2".to_string());
    let (r, _) = drive::<Find<IsGo>>(elements(vec![record("go"), second]));
    assert_eq!(r, Ok(Some(record("go"))));
}

#[test]
fn find_without_match_is_none() {
    let (r, _) = drive::<Find<IsGo>>(elements(vec![record("rust"), record("c")]));
    assert_eq!(r, Ok(None));
}

#[test]
fn sibling_after_early_stop_decodes() {
    let json = r#"[[{"v":"rust"},{"v":"go"},{"v":"rust"},{"v":"zig"}], [1, 2, 3]]"#;
    let (found, sibling): (Reduced<Find<IsGo>>, Vec<u32>) = serde_json::from_str(json).unwrap();
    assert_eq!(found.0.into_inner(), Some(record("go")));
    assert_eq!(sibling, vec![1, 2, 3]);
}

#[test]
fn malformed_element_fails() {
    let json = r#"[{"v":"rust"}, 5, {"v":"rust"}]"#;
    let r: Result<Reduced<Fold<CountRust>>, serde_json::Error> = serde_json::from_str(json);
    assert!(r.is_err());
}

#[test]
fn decode_error_during_drain_fails() {
    let pulls = vec![Ok(Some(record("go"))), Err("bad".to_string()), Ok(Some(record("rust"))), Ok(None)];
    let (r, asked) = drive::<Find<IsGo>>(pulls);
    assert_eq!(r, Err("bad".to_string()));
    assert_eq!(asked, 2);
}

#[test]
fn decode_error_before_match_fails() {
    let pulls = vec![Ok(Some(record("rust"))), Err("bad".to_string()), Ok(Some(record("go"))), Ok(None)];
    let (r, _) = drive::<Find<IsGo>>(pulls);
    assert_eq!(r, Err("bad".to_string()));
}

#[test]
fn try_fold_stops_and_drains() {
    let (r, asked) = drive::<TryFold<SumUntilZero>>(elements(vec![4, 5, 0, 9, 1]));
    assert_eq!(r, Ok(ControlFlow::Break(9)));
    assert_eq!(asked, 6);
}

#[test]
fn try_fold_runs_to_the_end() {
    let (r, _) = drive::<TryFold<SumUntilZero>>(elements(vec![4, 5, 6]));
    assert_eq!(r, Ok(ControlFlow::Continue(15)));
}

#[test]
fn for_each_applies_once_in_order() {
    let (r, asked) = drive::<ForEach<Record10>>(elements(vec![3, 1, 2]));
    assert_eq!(r, Ok(()));
    assert_eq!(asked, 4);
    assert_eq!(*APPLIED.lock().unwrap(), vec![13, 11, 12]);
}

#[test]
fn empty_sequence() {
    let (r, _) = drive::<Fold<Digits>>(elements(vec![]));
    assert_eq!(r, Ok(7));
    let (r, _) = drive::<Find<IsGo>>(elements(vec![]));
    assert_eq!(r, Ok(None));
    let r: Reduced<Fold<CountRust>> = serde_json::from_str("[]").unwrap();
    assert_eq!(r.0.into_inner(), 0);
}

#[test]
fn finalize_hands_back_any_payload() {
    let r = <Find<IsGo> as Aggregator>::finalize(ControlFlow::Break(record("rust")));
    assert_eq!(r, Some(record("rust")));
    let r = <Find<IsGo> as Aggregator>::finalize(ControlFlow::Continue(()));
    assert_eq!(r, None);
    let r = <TryFold<SumUntilZero> as Aggregator>::finalize(ControlFlow::Break(3));
    assert_eq!(r, ControlFlow::Break(3));
}
