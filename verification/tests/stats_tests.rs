use chrono::{Datelike, NaiveDate};

use habitus::calendar::Day;
use habitus::stats::jaccard;

fn day(y: i32, m: u32, d: u32) -> Day {
    let n = NaiveDate::from_ymd_opt(y, m, d).unwrap();
    Day::from_ymd(n.year(), n.month(), n.day()).unwrap()
}

fn score(a: &[Day], b: &[Day]) -> f64 {
    let (common, either) = jaccard(a, b);
    if either == 0 {
        0.0
    } else {
        common as f64 / either as f64
    }
}

#[test]
fn jaccard_um_quando_dias_identicos() {
    let d1 = day(2026, 7, 1);
    let d2 = day(2026, 7, 2);
    let a = vec![d1, d2];
    let b = vec![d1, d2];
    assert_eq!(score(&a, &b), 1.0);
}

#[test]
fn jaccard_zero_quando_nenhum_dia_em_comum() {
    let d1 = day(2026, 7, 1);
    let d2 = day(2026, 7, 2);
    let a = vec![d1];
    let b = vec![d2];
    assert_eq!(score(&a, &b), 0.0);
}

#[test]
fn jaccard_meio_quando_metade_sobrepoe() {
    let d1 = day(2026, 7, 1);
    let d2 = day(2026, 7, 2);
    let a = vec![d1, d2];
    let b = vec![d1];
    assert_eq!(score(&a, &b), 0.5);
}

#[test]
fn correlacao_alta_quando_habitos_coincidem_na_maioria_dos_dias() {
    let d1 = day(2026, 7, 1);
    let d2 = day(2026, 7, 2);
    let d3 = day(2026, 7, 3);
    let treinar = vec![d1, d2, d3];
    let ler = vec![d1, d2];
    let s = score(&treinar, &ler);
    assert!((s - 0.6667).abs() < 0.01);
}

#[test]
fn jaccard_counts_days_not_entries() {
    let d1 = day(2026, 7, 1);
    let d2 = day(2026, 7, 2);
    let d3 = day(2026, 7, 3);
    assert_eq!(jaccard(&[d1, d1, d2], &[d2, d3, d3]), (1, 3));
}

#[test]
fn jaccard_is_symmetric() {
    let d1 = day(2026, 7, 1);
    let d2 = day(2026, 7, 2);
    let d3 = day(2026, 7, 3);
    let a = vec![d1, d2];
    let b = vec![d2, d3, d1];
    assert_eq!(jaccard(&a, &b), jaccard(&b, &a));
    assert_eq!(jaccard(&a, &b), (2, 3));
}

#[test]
fn jaccard_of_nothing() {
    assert_eq!(jaccard(&[], &[]), (0, 0));
    assert_eq!(score(&[], &[]), 0.0);
    assert_eq!(jaccard(&[day(2026, 7, 1)], &[]), (0, 1));
}
