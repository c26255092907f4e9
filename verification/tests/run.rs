use plot_data::{
    Line, Part, Rate, RateSample, RawLatency, RawPing, RawResult, RawStreamGroup, RunError,
    Source, SumSample, Term, TestResult, TestStreamGroup, Throughput,
};

fn held(index: usize) -> Term {
    Term::Held(Source::Sample { index })
}

fn sum_point(time: u64, terms: Vec<Term>) -> SumSample {
    SumSample { time, terms }
}

fn group(download: bool, both: bool, streams: Vec<Vec<(u64, u64)>>) -> RawStreamGroup {
    RawStreamGroup { download, both, streams }
}

fn run(interval: u64, stream_groups: Vec<RawStreamGroup>) -> RawResult {
    RawResult {
        start: 250_000_000,
        duration: 3_000_000_000,
        bandwidth_interval: interval,
        stream_groups,
        pings: vec![
            RawPing {
                index: 0,
                sent: 300_000_000,
                latency: Some(RawLatency { total: Some(12_000_000), up: 5_000_000 }),
            },
            RawPing {
                index: 1,
                sent: 400_000_000,
                latency: Some(RawLatency { total: None, up: 6_000_000 }),
            },
            RawPing { index: 2, sent: 500_000_000, latency: None },
        ],
    }
}

fn full_run() -> RawResult {
    run(
        500_000,
        vec![
            group(true, false, vec![vec![(0, 0), (1_000_000, 1_000_000)]]),
            group(
                true,
                true,
                vec![
                    vec![(2_000_000, 0), (3_000_000, 500_000)],
                    vec![(2_500_000, 0), (3_000_000, 500_000)],
                ],
            ),
            group(false, true, vec![vec![(2_000_000, 0), (3_000_000, 300_000)]]),
        ],
    )
}

#[test]
fn single_download_stream() {
    let raw = run(500_000, vec![group(true, false, vec![vec![(0, 0), (1_000_000, 1_000_000)]])]);
    assert_eq!(raw.validate(), Ok(()));
    let result = raw.to_test_result();
    let expected = vec![
        sum_point(0, vec![held(0)]),
        sum_point(
            500_000,
            vec![Term::Held(Source::Between { index: 1, num: 500_000, den: 1_000_000 })],
        ),
        sum_point(1_000_000, vec![held(1)]),
    ];
    assert_eq!(result.download_bytes, Some(expected.clone()));
    assert_eq!(
        result.combined_download_bytes,
        vec![
            sum_point(0, vec![held(0)]),
            sum_point(500_000, vec![held(1)]),
            sum_point(1_000_000, vec![held(2)]),
        ]
    );
    assert_eq!(result.upload_bytes, None);
    assert_eq!(result.both_download_bytes, None);
    assert_eq!(result.both_upload_bytes, None);
    assert_eq!(result.both_bytes, None);
    assert_eq!(result.combined_upload_bytes, vec![]);
    assert_eq!(result.stream_groups.len(), 1);
    assert_eq!(result.stream_groups[0].streams.len(), 1);
    assert_eq!(result.stream_groups[0].streams[0].data, expected);
}

#[test]
fn both_phase_without_upload_is_refused() {
    let raw = run(
        500_000,
        vec![
            group(true, false, vec![vec![(0, 0), (1_000_000, 1_000_000)]]),
            group(true, true, vec![vec![(2_000_000, 0), (3_000_000, 500_000)]]),
        ],
    );
    assert!(raw.both());
    assert_eq!(raw.find_group(true, true), Some(1));
    assert_eq!(raw.find_group(false, true), None);
    assert_eq!(raw.validate(), Err(RunError::IncompleteBothPhase));
}

#[test]
fn both_phase_without_download_is_refused() {
    let raw = run(500_000, vec![group(false, true, vec![vec![(0, 0), (1_000_000, 10)]])]);
    assert_eq!(raw.validate(), Err(RunError::IncompleteBothPhase));
}

#[test]
fn zero_interval_is_refused() {
    let raw = run(0, vec![group(true, false, vec![vec![(0, 0)]])]);
    assert_eq!(raw.validate(), Err(RunError::ZeroInterval));
    assert_eq!(run(0, vec![]).validate(), Err(RunError::ZeroInterval));
}

#[test]
fn zero_interval_comes_before_other_refusals() {
    let raw = run(0, vec![group(true, true, vec![vec![(u64::MAX, 0)]])]);
    assert_eq!(raw.validate(), Err(RunError::ZeroInterval));
}

#[test]
fn time_beyond_the_grid_is_refused() {
    let raw = run(
        1000,
        vec![group(true, false, vec![vec![(0, 0)], vec![(5, 0), (u64::MAX - 1, 10)]])],
    );
    assert_eq!(raw.validate(), Err(RunError::TimeOutOfRange));
    let raw = run(1000, vec![group(true, true, vec![vec![(u64::MAX - 1, 10)]])]);
    assert_eq!(raw.validate(), Err(RunError::TimeOutOfRange));
}

#[test]
fn run_without_groups_is_accepted() {
    let raw = run(500_000, vec![]);
    assert_eq!(raw.validate(), Ok(()));
    assert!(!raw.both());
    let result = raw.to_test_result();
    assert_eq!(result.download_bytes, None);
    assert_eq!(result.upload_bytes, None);
    assert_eq!(result.combined_download_bytes, vec![]);
    assert_eq!(result.combined_upload_bytes, vec![]);
    assert_eq!(result.both_bytes, None);
    assert_eq!(result.stream_groups, Vec::<TestStreamGroup>::new());
}

#[test]
fn empty_streams_are_accepted() {
    let raw = run(1000, vec![group(false, false, vec![vec![], vec![]])]);
    assert_eq!(raw.validate(), Ok(()));
    let result = raw.to_test_result();
    assert_eq!(result.upload_bytes, Some(vec![]));
    assert_eq!(result.combined_upload_bytes, vec![]);
    assert_eq!(result.stream_groups[0].streams.len(), 2);
    assert_eq!(result.stream_groups[0].streams[0].data, vec![]);
    assert_eq!(result.stream_groups[0].streams[1].data, vec![]);
}

#[test]
fn find_group_takes_the_first_of_a_kind() {
    let raw = run(
        1000,
        vec![
            group(false, false, vec![]),
            group(true, false, vec![vec![(0, 1)]]),
            group(true, false, vec![vec![(5000, 2)]]),
        ],
    );
    assert_eq!(raw.find_group(true, false), Some(1));
    assert_eq!(raw.find_group(false, false), Some(0));
    assert_eq!(raw.find_group(true, true), None);
    assert_eq!(raw.find_group(false, true), None);
    assert!(!raw.both());
    let result = raw.to_test_result();
    assert_eq!(result.download_bytes, Some(vec![sum_point(0, vec![held(0)])]));
    assert_eq!(result.upload_bytes, Some(vec![]));
}

#[test]
fn start_duration_and_pings_pass_through() {
    let raw = full_run();
    let result = raw.to_test_result();
    assert_eq!(result.start, 250_000_000);
    assert_eq!(result.duration, 3_000_000_000);
    assert_eq!(result.pings, raw.pings);
    assert_eq!(result.pings.len(), 3);
}

#[test]
fn categories_of_a_full_run() {
    let raw = full_run();
    assert_eq!(raw.validate(), Ok(()));
    assert!(raw.both());
    let result = raw.to_test_result();
    assert_eq!(result.upload_bytes, None);
    assert_eq!(
        result.both_download_bytes,
        Some(vec![
            sum_point(2_000_000, vec![held(0), Term::Zero]),
            sum_point(
                2_500_000,
                vec![
                    Term::Held(Source::Between { index: 1, num: 500_000, den: 1_000_000 }),
                    held(0),
                ]
            ),
            sum_point(3_000_000, vec![held(1), held(1)]),
        ])
    );
    assert_eq!(
        result.both_upload_bytes,
        Some(vec![
            sum_point(2_000_000, vec![held(0)]),
            sum_point(
                2_500_000,
                vec![Term::Held(Source::Between { index: 1, num: 500_000, den: 1_000_000 })]
            ),
            sum_point(3_000_000, vec![held(1)]),
        ])
    );
}

#[test]
fn combined_series_of_a_full_run() {
    let result = full_run().to_test_result();
    assert_eq!(
        result.combined_download_bytes,
        vec![
            sum_point(0, vec![held(0), Term::Zero]),
            sum_point(500_000, vec![held(1), Term::Zero]),
            sum_point(1_000_000, vec![held(2), Term::Zero]),
            sum_point(1_500_000, vec![held(2), Term::Zero]),
            sum_point(2_000_000, vec![held(2), held(0)]),
            sum_point(2_500_000, vec![held(2), held(1)]),
            sum_point(3_000_000, vec![held(2), held(2)]),
        ]
    );
    assert_eq!(
        result.combined_upload_bytes,
        vec![
            sum_point(2_000_000, vec![held(0)]),
            sum_point(2_500_000, vec![held(1)]),
            sum_point(3_000_000, vec![held(2)]),
        ]
    );
    assert_eq!(
        result.both_bytes,
        Some(vec![
            sum_point(2_000_000, vec![held(0), held(0)]),
            sum_point(2_500_000, vec![held(1), held(1)]),
            sum_point(3_000_000, vec![held(2), held(2)]),
        ])
    );
}

#[test]
fn running_totals_of_a_full_run() {
    let result = full_run().to_test_result();
    assert_eq!(result.stream_groups.len(), 3);
    let tags: Vec<(bool, bool, usize)> = result
        .stream_groups
        .iter()
        .map(|g| (g.download, g.both, g.streams.len()))
        .collect();
    assert_eq!(tags, vec![(true, false, 1), (true, true, 2), (false, true, 1)]);
    let both_download = &result.stream_groups[1];
    assert_eq!(
        both_download.streams[0].data,
        vec![
            sum_point(2_000_000, vec![held(0)]),
            sum_point(
                2_500_000,
                vec![Term::Held(Source::Between { index: 1, num: 500_000, den: 1_000_000 })]
            ),
            sum_point(3_000_000, vec![held(1)]),
        ]
    );
    assert_eq!(Some(both_download.streams[1].data.clone()), result.both_download_bytes);
    assert_eq!(Some(result.stream_groups[2].streams[0].data.clone()), result.both_upload_bytes);
    assert_eq!(Some(result.stream_groups[0].streams[0].data.clone()), result.download_bytes);
}

fn zero(time: u64) -> RateSample {
    RateSample { time, rate: Rate::Zero }
}

fn slope(time: u64, index: usize, elapsed: u64) -> RateSample {
    RateSample { time, rate: Rate::Slope { index, elapsed } }
}

fn bare_result() -> TestResult {
    TestResult {
        start: 0,
        duration: 0,
        download_bytes: None,
        upload_bytes: None,
        combined_download_bytes: vec![],
        combined_upload_bytes: vec![],
        both_download_bytes: None,
        both_upload_bytes: None,
        both_bytes: None,
        pings: vec![],
        stream_groups: vec![],
    }
}

#[test]
fn lines_of_a_single_download() {
    let raw = run(500_000, vec![group(true, false, vec![vec![(0, 0), (1_000_000, 1_000_000)]])]);
    let result = raw.to_test_result();
    assert!(result.can_rate());
    assert_eq!(
        result.throughput(),
        vec![Throughput {
            line: Line::Download,
            rates: vec![
                zero(0),
                slope(500_000, 1, 500_000),
                slope(1_000_000, 2, 500_000),
                zero(1_000_001),
            ],
            parts: vec![Part::Download],
        }]
    );
}

#[test]
fn lines_of_a_full_run() {
    let result = full_run().to_test_result();
    assert!(result.can_rate());
    let lines = result.throughput();
    let kinds: Vec<(Line, Vec<Part>, usize)> =
        lines.iter().map(|l| (l.line, l.parts.clone(), l.rates.len())).collect();
    assert_eq!(
        kinds,
        vec![
            (Line::Both, vec![Part::Both], 5),
            (Line::Upload, vec![Part::BothUpload], 5),
            (Line::Download, vec![Part::Download, Part::BothDownload], 8),
        ]
    );
    assert_eq!(
        lines[0].rates,
        vec![
            zero(1_999_999),
            zero(2_000_000),
            slope(2_500_000, 1, 500_000),
            slope(3_000_000, 2, 500_000),
            zero(3_000_001),
        ]
    );
    assert_eq!(lines[1].rates, lines[0].rates);
    assert_eq!(lines[2].rates[0], zero(0));
    assert_eq!(lines[2].rates[6], slope(3_000_000, 6, 500_000));
    assert_eq!(lines[2].rates[7], zero(3_000_001));
}

#[test]
fn lines_of_a_run_without_streams() {
    let result = run(500_000, vec![]).to_test_result();
    assert!(result.can_rate());
    assert_eq!(result.throughput(), vec![]);
}

#[test]
fn lines_of_an_upload_without_samples() {
    let result = run(1000, vec![group(false, false, vec![vec![]])]).to_test_result();
    assert!(result.can_rate());
    assert_eq!(
        result.throughput(),
        vec![Throughput { line: Line::Upload, rates: vec![], parts: vec![Part::Upload] }]
    );
}

#[test]
fn series_that_do_not_ascend_cannot_be_rated() {
    let mut result = bare_result();
    result.download_bytes = Some(vec![]);
    result.combined_download_bytes = vec![
        SumSample { time: 5, terms: vec![] },
        SumSample { time: 5, terms: vec![] },
    ];
    assert!(!result.can_rate());
    result.combined_download_bytes = vec![SumSample { time: u64::MAX, terms: vec![] }];
    assert!(!result.can_rate());
    result.combined_download_bytes = vec![SumSample { time: u64::MAX - 1, terms: vec![] }];
    assert!(result.can_rate());
}

#[test]
fn series_that_are_not_drawn_need_not_ascend() {
    let mut result = bare_result();
    result.combined_download_bytes = vec![
        SumSample { time: 9, terms: vec![] },
        SumSample { time: 3, terms: vec![] },
    ];
    assert!(result.can_rate());
    assert_eq!(result.throughput(), vec![]);
    result.both_bytes = Some(vec![
        SumSample { time: 9, terms: vec![] },
        SumSample { time: 3, terms: vec![] },
    ]);
    assert!(!result.can_rate());
}
