use nginx_log_stats::stats::{
    endpoint_failures, failingest_endpoint, largest_endpoint, largest_record, status_counts,
};
use nginx_log_stats::{LogStats, NginxLog, NginxLogLine, SizeStats};

fn line(request: &str, response: u16, bytes: u64) -> NginxLogLine {
    NginxLogLine {
        time: String::from("17/May/2015:08:05:32 +0000"),
        remote_ip: String::from("93.180.71.3"),
        remote_user: String::from("-"),
        request: String::from(request),
        response,
        bytes,
        referrer: String::from("-"),
        agent: String::from("Debian APT-HTTP/1.3 (0.8.16~exp12ubuntu10.21)"),
    }
}

fn codes(stats: &LogStats) -> Vec<(u16, usize)> {
    stats.status_count.iter().map(|(code, count)| (*code, *count)).collect()
}

#[test]
fn three_lines_end_to_end() {
    let log = NginxLog(vec![
        line("GET /downloads/product_1 HTTP/1.1", 200, 100),
        line("GET /missing HTTP/1.1", 404, 50),
        line("GET /downloads/product_2 HTTP/1.1", 200, 300),
    ]);
    let stats = LogStats::from_nginx_log(&log);
    assert_eq!(codes(&stats), vec![(200, 2), (404, 1)]);
    let all = stats.all_requests.unwrap();
    assert_eq!(all, SizeStats { count: 3, total: 450, median: 100, p99: 300 });
    assert_eq!(all.total as f64 / all.count as f64, 150.0);
    assert_eq!(
        stats.successful_requests,
        Some(SizeStats { count: 2, total: 400, median: 300, p99: 300 })
    );
    assert_eq!(
        stats.failed_requests,
        Some(SizeStats { count: 1, total: 50, median: 50, p99: 50 })
    );
    assert_eq!(stats.failingest_endpoint, "/missing");
    assert_eq!(stats.largest_endpoint, "/downloads/product_2");
}

#[test]
fn empty_log_has_undefined_size_statistics() {
    let stats = LogStats::from_nginx_log(&NginxLog(vec![]));
    assert!(stats.status_count.is_empty());
    assert_eq!(stats.all_requests, None);
    assert_eq!(stats.successful_requests, None);
    assert_eq!(stats.failed_requests, None);
    assert_eq!(stats.largest_endpoint, "");
    assert_eq!(stats.failingest_endpoint, "/");
}

#[test]
fn log_without_failures() {
    let log = NginxLog(vec![
        line("GET /a HTTP/1.1", 200, 10),
        line("GET /b HTTP/1.1", 304, 0),
        line("GET /c HTTP/1.1", 399, 20),
    ]);
    let stats = LogStats::from_nginx_log(&log);
    assert_eq!(codes(&stats), vec![(200, 1), (304, 1), (399, 1)]);
    assert_eq!(stats.failed_requests, None);
    assert_eq!(
        stats.successful_requests,
        Some(SizeStats { count: 3, total: 30, median: 10, p99: 20 })
    );
    assert_eq!(stats.all_requests, stats.successful_requests);
    assert_eq!(stats.failingest_endpoint, "/");
    assert_eq!(stats.largest_endpoint, "/c");
}

#[test]
fn log_without_successes() {
    let log = NginxLog(vec![
        line("GET /a HTTP/1.1", 400, 7),
        line("GET /a HTTP/1.1", 500, 9),
    ]);
    let stats = LogStats::from_nginx_log(&log);
    assert_eq!(stats.successful_requests, None);
    assert_eq!(
        stats.failed_requests,
        Some(SizeStats { count: 2, total: 16, median: 9, p99: 9 })
    );
    assert_eq!(stats.all_requests, stats.failed_requests);
    assert_eq!(stats.failingest_endpoint, "/a");
}

#[test]
fn status_400_is_the_first_failure() {
    assert!(!line("GET / HTTP/1.1", 0, 0).is_failed());
    assert!(!line("GET / HTTP/1.1", 200, 0).is_failed());
    assert!(!line("GET / HTTP/1.1", 399, 0).is_failed());
    assert!(line("GET / HTTP/1.1", 400, 0).is_failed());
    assert!(line("GET / HTTP/1.1", 404, 0).is_failed());
    assert!(line("GET / HTTP/1.1", 65535, 0).is_failed());
}

#[test]
fn line_knows_its_endpoint() {
    assert_eq!(
        line("GET /downloads/product_1 HTTP/1.1", 200, 0).endpoint(),
        "/downloads/product_1"
    );
    assert_eq!(line("-", 400, 0).endpoint(), "/");
}

#[test]
fn status_counts_add_up_to_the_number_of_records() {
    let statuses = [200, 404, 200, 500, 301, 404, 200, 0, 65535, 200];
    let log = NginxLog(
        statuses.iter().map(|status| line("GET / HTTP/1.1", *status, 1)).collect(),
    );
    let counts = status_counts(&log);
    let listed: Vec<(u16, usize)> = counts.iter().map(|(code, count)| (*code, *count)).collect();
    assert_eq!(
        listed,
        vec![(0, 1), (200, 4), (301, 1), (404, 2), (500, 1), (65535, 1)]
    );
    assert_eq!(counts.values().sum::<usize>(), log.0.len());
}

#[test]
fn every_record_is_successful_or_failed() {
    let log = NginxLog(vec![
        line("GET /a HTTP/1.1", 200, 5),
        line("GET /b HTTP/1.1", 404, 3),
        line("GET /c HTTP/1.1", 399, 8),
        line("GET /d HTTP/1.1", 400, 2),
        line("GET /e HTTP/1.1", 503, 1),
    ]);
    assert_eq!(log.sizes(), vec![5, 3, 8, 2, 1]);
    assert_eq!(log.sizes_with_outcome(false), vec![5, 8]);
    assert_eq!(log.sizes_with_outcome(true), vec![3, 2, 1]);
    let stats = LogStats::from_nginx_log(&log);
    let all = stats.all_requests.unwrap();
    let successful = stats.successful_requests.unwrap();
    let failed = stats.failed_requests.unwrap();
    assert_eq!(all.count, 5);
    assert_eq!(successful.count + failed.count, all.count);
    assert_eq!(successful.total + failed.total, all.total);
}

#[test]
fn largest_response_of_the_first_record_that_reaches_it() {
    let log = NginxLog(vec![
        line("GET /small HTTP/1.1", 200, 10),
        line("GET /first HTTP/1.1", 200, 900),
        line("GET /second HTTP/1.1", 500, 900),
        line("GET /other HTTP/1.1", 200, 899),
    ]);
    assert_eq!(largest_record(&log), Some(1));
    assert_eq!(largest_endpoint(&log), "/first");
    assert_eq!(LogStats::from_nginx_log(&log).largest_endpoint, "/first");
}

#[test]
fn largest_endpoint_is_empty_when_no_response_has_bytes() {
    let log = NginxLog(vec![
        line("GET /a HTTP/1.1", 304, 0),
        line("GET /b HTTP/1.1", 304, 0),
    ]);
    assert_eq!(largest_record(&log), None);
    assert_eq!(largest_endpoint(&log), "");
    assert_eq!(largest_record(&NginxLog(vec![])), None);
}

#[test]
fn largest_endpoint_defaults_to_root_without_a_path() {
    let log = NginxLog(vec![line("-", 400, 12)]);
    assert_eq!(largest_endpoint(&log), "/");
}

#[test]
fn failingest_endpoint_has_the_most_failures() {
    let log = NginxLog(vec![
        line("GET /ok HTTP/1.1", 200, 1),
        line("GET /ok HTTP/1.1", 200, 1),
        line("GET /ok HTTP/1.1", 200, 1),
        line("GET /flaky HTTP/1.1", 500, 1),
        line("GET /gone HTTP/1.1", 404, 1),
        line("POST /flaky HTTP/1.1", 502, 1),
        line("GET /flaky HTTP/1.1", 200, 1),
    ]);
    assert_eq!(failingest_endpoint(&log), "/flaky");
    assert_eq!(endpoint_failures(&log).most_failing(), Some(String::from("/flaky")));
    assert_eq!(LogStats::from_nginx_log(&log).failingest_endpoint, "/flaky");
}

// Endpoints with as many failures: the one that sorts first is the result,
// whichever failed first in the log.
#[test]
fn failingest_endpoint_tie_goes_to_the_endpoint_that_sorts_first() {
    let log = NginxLog(vec![
        line("GET /b HTTP/1.1", 500, 1),
        line("GET /a HTTP/1.1", 404, 1),
        line("GET /c HTTP/1.1", 403, 1),
        line("GET /b HTTP/1.1", 500, 1),
        line("GET /a HTTP/1.1", 404, 1),
    ]);
    assert_eq!(failingest_endpoint(&log), "/a");
}

#[test]
fn failingest_endpoint_is_root_when_nothing_failed() {
    let log = NginxLog(vec![line("GET /a HTTP/1.1", 200, 1)]);
    assert_eq!(failingest_endpoint(&log), "/");
    assert_eq!(failingest_endpoint(&NginxLog(vec![])), "/");
    assert_eq!(endpoint_failures(&log).most_failing(), None);
}

#[test]
fn failed_request_without_a_path_counts_for_root() {
    let log = NginxLog(vec![
        line("", 400, 1),
        line("-", 400, 1),
        line("GET /a HTTP/1.1", 404, 1),
    ]);
    assert_eq!(failingest_endpoint(&log), "/");
}

#[test]
fn log_is_left_as_it_was() {
    let log = NginxLog(vec![
        line("GET /b HTTP/1.1", 200, 30),
        line("GET /a HTTP/1.1", 404, 10),
        line("GET /c HTTP/1.1", 200, 20),
    ]);
    let _ = LogStats::from_nginx_log(&log);
    let sizes: Vec<u64> = log.0.iter().map(|line| line.bytes).collect();
    assert_eq!(sizes, vec![30, 10, 20]);
}

#[test]
fn failures_of_each_endpoint() {
    let log = NginxLog(vec![
        line("GET /a HTTP/1.1", 500, 1),
        line("GET /b HTTP/1.1", 200, 1),
        line("GET /a HTTP/1.1", 404, 1),
        line("GET /b HTTP/1.1", 403, 1),
        line("GET /a HTTP/1.1", 200, 1),
    ]);
    let failures = endpoint_failures(&log);
    assert_eq!(failures.failures_at("/a"), 2);
    assert_eq!(failures.failures_at("/b"), 1);
    assert_eq!(failures.failures_at("/c"), 0);
}

// A log made up by a fixed rule, summarized once by the library and once
// directly with the collections of std.
#[test]
fn summary_agrees_with_a_direct_computation() {
    let paths = ["/", "/a", "/b", "/a/b", "/c?x=1", "/\u{e9}", "/zz", "/A"];
    let statuses = [200, 200, 200, 301, 304, 400, 404, 404, 500, 503];
    let mut state: u64 = 0x2545_f491_4f6c_dd1d;
    let mut next = move || {
        state ^= state << 13;
        state ^= state >> 7;
        state ^= state << 17;
        state
    };
    let mut lines = Vec::new();
    for _ in 0..500 {
        let path = paths[(next() % paths.len() as u64) as usize];
        let status = statuses[(next() % statuses.len() as u64) as usize];
        let bytes = next() % 5000;
        lines.push(line(&format!("GET {} HTTP/1.1", path), status, bytes));
    }
    let log = NginxLog(lines);
    let stats = LogStats::from_nginx_log(&log);

    let mut status_count = std::collections::BTreeMap::new();
    let mut failures = std::collections::BTreeMap::new();
    let mut largest = (String::new(), 0);
    for line in &log.0 {
        let endpoint = line.request.split_whitespace().nth(1).unwrap_or("/");
        *status_count.entry(line.response).or_insert(0_usize) += 1;
        if line.response >= 400 {
            *failures.entry(endpoint.to_owned()).or_insert(0_usize) += 1;
        }
        if line.bytes > largest.1 {
            largest = (endpoint.to_owned(), line.bytes);
        }
    }
    let most = failures.values().copied().max().unwrap();
    let failingest = failures.iter().find(|(_, count)| **count == most).unwrap().0;
    let direct = |keep: &dyn Fn(u16) -> bool| {
        let mut sizes: Vec<u64> =
            log.0.iter().filter(|line| keep(line.response)).map(|line| line.bytes).collect();
        sizes.sort();
        SizeStats {
            count: sizes.len(),
            total: sizes.iter().map(|size| *size as u128).sum(),
            median: sizes[sizes.len() / 2],
            p99: sizes[sizes.len() * 99 / 100],
        }
    };

    assert_eq!(stats.status_count, status_count);
    assert_eq!(stats.all_requests, Some(direct(&|_| true)));
    assert_eq!(stats.successful_requests, Some(direct(&|status| status < 400)));
    assert_eq!(stats.failed_requests, Some(direct(&|status| status >= 400)));
    assert_eq!(stats.largest_endpoint, largest.0);
    assert_eq!(&stats.failingest_endpoint, failingest);
}
