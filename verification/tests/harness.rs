//! What a measurement of memory use reads and computes.
use gitx_bounded::harness::{budget_of_mb, one_line, rss_anon_kb, total_size};

fn kb(status: &str) -> Option<u64> {
    rss_anon_kb(&status.chars().collect())
}

#[test]
fn anonymous_memory_is_found() {
    let status = "Name:\tgit\nVmRSS:\t    2048 kB\nRssAnon:\t     512 kB\nRssFile:\t    1536 kB\n";
    assert_eq!(kb(status), Some(512));
    assert_eq!(kb("RssAnon: 7"), Some(7));
    assert_eq!(kb("RssAnon:+7\r\n"), Some(7));
    assert_eq!(kb("RssAnon:\u{2003}18446744073709551615\u{a0}kB"), Some(u64::MAX));
}

#[test]
fn anonymous_memory_is_unknown() {
    assert_eq!(kb(""), None);
    assert_eq!(kb("VmRSS: 1 kB\n"), None);
    assert_eq!(kb(" RssAnon: 1 kB\n"), None, "only at the start of a line");
    assert_eq!(kb("RssAnon:\n"), None);
    assert_eq!(kb("RssAnon: +\n"), None);
    assert_eq!(kb("RssAnon: 1x kB\n"), None);
    assert_eq!(kb("RssAnon: -1 kB\n"), None);
    assert_eq!(kb("RssAnon: 18446744073709551616 kB\n"), None);
    assert_eq!(kb("RssAnon: x\nRssAnon: 1\n"), None, "the first line decides");
}

#[test]
fn sizes_add_up_to_the_limit() {
    assert_eq!(total_size(&Vec::new()), 0);
    assert_eq!(total_size(&vec![1, 2, 3]), 6);
    assert_eq!(total_size(&vec![u64::MAX, 1, 1]), u64::MAX);
}

#[test]
fn budgets_are_given_in_mebibytes() {
    assert_eq!(budget_of_mb(Some(64)).cap(), 67_108_864);
    assert_eq!(budget_of_mb(Some(0)).cap(), 0);
    assert_eq!(budget_of_mb(None).cap(), u64::MAX);
}

#[test]
fn errors_stay_on_one_line() {
    let text: Vec<char> = "a\nb\r\nc".chars().collect();
    assert_eq!(one_line(&text).iter().collect::<String>(), "a b\r c");
}
