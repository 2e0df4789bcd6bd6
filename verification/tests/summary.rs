use latency_probe::histogram::{histogram, max_count, Bucket};
use latency_probe::report::render_summary;
use latency_probe::request::Response;
use latency_probe::summary::{summarize, EmptyResultError};

const MS: u64 = 1_000_000;

fn sample(status: u16, took: u64) -> Response {
    Response { status, took, timestamp: 0 }
}

fn five() -> Vec<Response> {
    vec![
        sample(200, 15 * MS),
        sample(200, 5 * MS),
        sample(500, 25 * MS),
        sample(404, 10 * MS),
        sample(200, 20 * MS),
    ]
}

#[test]
fn five_samples_are_summed_up() {
    let sorted = vec![
        sample(200, 5 * MS),
        sample(200, 10 * MS),
        sample(200, 15 * MS),
        sample(200, 20 * MS),
        sample(200, 25 * MS),
    ];
    let s = summarize(&sorted).unwrap();
    assert_eq!(5, s.count);
    assert_eq!(15 * MS, s.mean);
    assert_eq!(15 * MS, s.median);
    assert_eq!(5 * MS, s.min.took);
    assert_eq!(25 * MS, s.max.took);
    assert_eq!(22_500_000, s.pct_90);
    assert_eq!(23_750_000, s.pct_95);
    assert_eq!(24_750_000, s.pct_99);
    assert_eq!(75_000_000, s.sum);
    assert_eq!(7_071_067, s.std_dev);
}

#[test]
fn order_of_completion_matters_only_for_first() {
    let s = summarize(&five()).unwrap();
    assert_eq!(sample(200, 15 * MS), s.first);
    assert_eq!(sample(200, 5 * MS), s.min);
    assert_eq!(sample(500, 25 * MS), s.max);
    assert_eq!(15 * MS, s.median);
    assert_eq!(22_500_000, s.pct_90);
    assert_eq!(
        vec![
            Bucket { status: 200, count: 3 },
            Bucket { status: 404, count: 1 },
            Bucket { status: 500, count: 1 }
        ],
        s.histogram
    );
}

#[test]
fn ties_go_to_the_first_seen() {
    let samples = vec![sample(201, 7), sample(202, 3), sample(203, 7), sample(204, 3)];
    let s = summarize(&samples).unwrap();
    assert_eq!(202, s.min.status);
    assert_eq!(201, s.max.status);
    assert_eq!(5, s.median);
}

#[test]
fn no_samples_no_summary() {
    let outcome = summarize(&Vec::new());
    assert_eq!(Some(EmptyResultError), outcome.err());
    assert_eq!("no result values", EmptyResultError.message());
}

#[test]
fn one_sample() {
    let s = summarize(&vec![sample(204, 123)]).unwrap();
    assert_eq!(1, s.count);
    assert_eq!(123, s.mean);
    assert_eq!(123, s.median);
    assert_eq!(0, s.std_dev);
    assert_eq!(123, s.pct_90);
    assert_eq!(123, s.pct_99);
    assert_eq!(123, s.sum);
}

#[test]
fn histogram_counts_sum_to_the_sample_count() {
    let samples = vec![
        sample(500, 1),
        sample(200, 2),
        sample(404, 3),
        sample(200, 4),
        sample(200, 5),
        sample(500, 6),
        sample(301, 7),
    ];
    let buckets = histogram(&samples);
    assert_eq!(
        vec![
            Bucket { status: 200, count: 3 },
            Bucket { status: 301, count: 1 },
            Bucket { status: 404, count: 1 },
            Bucket { status: 500, count: 2 }
        ],
        buckets
    );
    assert_eq!(samples.len(), buckets.iter().map(|b| b.count).sum::<usize>());
    assert_eq!(3, max_count(&buckets));
    assert_eq!(Vec::<Bucket>::new(), histogram(&Vec::new()));
    assert_eq!(0, max_count(&Vec::new()));
}

#[test]
fn summary_text() {
    let s = summarize(&five()).unwrap();
    let mut want = String::new();
    want.push_str("Results of 5 probes:\n\n");
    want.push_str("Min:            5.0000ms  (200 OK)\n");
    want.push_str("Max:           25.0000ms  (500 Internal Server Error)\n");
    want.push_str("First:         15.0000ms  (200 OK)\n");
    want.push_str("Average:       15.0000ms\n");
    want.push_str("Median:        15.0000ms\n");
    want.push_str("Std. Dev.:      7.0711ms\n");
    want.push_str("90th %ile.:    22.5000ms\n");
    want.push_str("95th %ile.:    23.7500ms\n");
    want.push_str("99th %ile.:    24.7500ms\n");
    want.push_str("Total:         75.0000ms\n");
    want.push_str("\n");
    want.push_str("200 OK:  3 (60.00%)\n");
    want.push_str("404 Not Found:  1 (20.00%)\n");
    want.push_str("500 Internal Server Error:  1 (20.00%)\n");
    assert_eq!(want, render_summary(&s));
}

#[test]
fn summary_text_pads_counts_and_rounds_shares() {
    let mut samples = Vec::new();
    for _ in 0..10 {
        samples.push(sample(200, 1_000));
    }
    samples.push(sample(503, 2_000));
    samples.push(sample(404, 2_000));
    let text = render_summary(&summarize(&samples).unwrap());
    assert!(text.starts_with("Results of 12 probes:\n\nMin:            1.0000µs  (200 OK)\n"));
    assert!(text.ends_with(
        "\n\n200 OK:  10 (83.33%)\n404 Not Found:   1 ( 8.33%)\n503 Service Unavailable:   1 ( 8.33%)\n"
    ));
}

#[test]
fn shares_sum_to_a_hundred_percent_but_for_rounding() {
    let mut samples = Vec::new();
    for i in 0..7u64 {
        samples.push(sample(200 + (i % 3) as u16, i));
    }
    let buckets = histogram(&samples);
    assert_eq!(3, buckets.len());
    let mut points: u128 = 0;
    for b in buckets.iter() {
        let (whole, frac) =
            latency_probe::fixed::split_scaled(b.count as u128 * 100, samples.len() as u64, 2);
        points += whole * 100 + frac;
    }
    assert_eq!(4286 + 2857 + 2857, points);
    assert!(2 * points <= 20_000 + 3 && 2 * points + 3 >= 20_000);
}

#[test]
fn figures_stand_in_order() {
    let samples: Vec<Response> =
        [90u64, 3, 41, 41, 7, 1000, 12, 5, 5, 64].iter().map(|t| sample(200, *t)).collect();
    let s = summarize(&samples).unwrap();
    assert_eq!(3, s.min.took);
    assert_eq!(1000, s.max.took);
    assert_eq!(90, s.first.took);
    assert_eq!(26, s.median);
    assert!(s.min.took <= s.median && s.median <= s.max.took);
    assert!(s.min.took <= s.pct_90);
    assert!(s.pct_90 <= s.pct_95 && s.pct_95 <= s.pct_99 && s.pct_99 <= s.max.took);
    assert!(s.min.took <= s.mean && s.mean <= s.max.took);
    assert_eq!(126, s.mean);
    assert_eq!(90, s.pct_90);
    assert_eq!(545, s.pct_95);
    assert_eq!(909, s.pct_99);
}

#[test]
fn statuses_that_are_no_status_codes_show_as_numbers() {
    let samples = vec![sample(42, 1_000), sample(599, 2_000), sample(1000, 3_000)];
    let text = render_summary(&summarize(&samples).unwrap());
    assert!(text.contains("Min:            1.0000µs  (42)\n"));
    assert!(text.contains("Max:            3.0000µs  (1000)\n"));
    assert!(text.ends_with(
        "\n\n42:  1 (33.33%)\n599 <unknown status code>:  1 (33.33%)\n1000:  1 (33.33%)\n"
    ));
}
