use plot_data::{
    charts, default_height, has_part, latency_runs, loss_mark, max_total_latency, shade, Chart,
    LatencyPart, Loss, RawLatency, RawPing, Run, Shade, Shown,
};

fn shown(streams: u64, download: bool, upload: bool, both: bool) -> Shown {
    Shown {
        streams,
        download,
        upload,
        both,
        peer_latency: false,
        split_throughput: false,
        transferred: false,
    }
}

fn lost(index: u64) -> RawPing {
    RawPing { index, sent: index * 1_000_000, latency: None }
}

fn half(index: u64, up: u64) -> RawPing {
    RawPing { index, sent: index * 1_000_000, latency: Some(RawLatency { total: None, up }) }
}

fn whole(index: u64, up: u64, total: u64) -> RawPing {
    RawPing {
        index,
        sent: index * 1_000_000,
        latency: Some(RawLatency { total: Some(total), up }),
    }
}

fn run(start: usize, end: usize) -> Run {
    Run { start, end }
}

#[test]
fn a_run_without_streams_shows_latency_only() {
    assert_eq!(charts(shown(0, false, false, false)), vec![Chart::Latency]);
    let mut all = shown(0, true, true, true);
    all.split_throughput = true;
    all.transferred = true;
    assert_eq!(charts(all), vec![Chart::Latency]);
}

#[test]
fn throughput_in_one_chart() {
    assert_eq!(
        charts(shown(4, true, false, false)),
        vec![Chart::Throughput, Chart::Latency]
    );
    let mut more = shown(1, true, true, true);
    more.transferred = true;
    more.peer_latency = true;
    assert_eq!(
        charts(more),
        vec![Chart::Throughput, Chart::Latency, Chart::PeerLatency, Chart::Transferred]
    );
}

#[test]
fn throughput_split_by_direction() {
    let mut split = shown(2, true, false, false);
    split.split_throughput = true;
    assert_eq!(charts(split), vec![Chart::Download, Chart::Latency]);
    split.download = false;
    split.upload = true;
    assert_eq!(charts(split), vec![Chart::Upload, Chart::Latency]);
    split.upload = false;
    split.both = true;
    assert_eq!(charts(split), vec![Chart::Download, Chart::Upload, Chart::Latency]);
    split.both = false;
    assert_eq!(charts(split), vec![Chart::Latency]);
    split.download = true;
    split.upload = true;
    split.peer_latency = true;
    split.transferred = true;
    assert_eq!(
        charts(split),
        vec![
            Chart::Download,
            Chart::Upload,
            Chart::Latency,
            Chart::PeerLatency,
            Chart::Transferred,
        ]
    );
}

#[test]
fn default_height_grows_with_peer_latency() {
    assert_eq!(default_height(false), 720);
    assert_eq!(default_height(true), 1100);
}

#[test]
fn the_last_line_of_a_group_is_the_main_one() {
    assert_eq!(shade(0, 1), Shade::Main);
    assert_eq!(shade(0, 4), Shade::Even);
    assert_eq!(shade(1, 4), Shade::Odd);
    assert_eq!(shade(2, 4), Shade::Even);
    assert_eq!(shade(3, 4), Shade::Main);
    assert_eq!(shade(2, 3), Shade::Main);
}

#[test]
fn completed_probes_have_no_loss_mark() {
    assert_eq!(loss_mark(0, &whole(0, 1, 2)), None);
    assert_eq!(loss_mark(2, &whole(0, 1, 2)), None);
}

#[test]
fn loss_marks_tell_the_way_from_version_two() {
    assert_eq!(loss_mark(2, &lost(0)), Some(Loss::Up));
    assert_eq!(loss_mark(2, &half(0, 5)), Some(Loss::Down));
    assert_eq!(loss_mark(3, &lost(0)), Some(Loss::Up));
    assert_eq!(loss_mark(1, &lost(0)), Some(Loss::Unknown));
    assert_eq!(loss_mark(1, &half(0, 5)), Some(Loss::Unknown));
    assert_eq!(loss_mark(0, &half(0, 5)), Some(Loss::Unknown));
}

#[test]
fn longest_round_trip() {
    assert_eq!(max_total_latency(&vec![]), None);
    assert_eq!(max_total_latency(&vec![lost(0), half(1, 9)]), None);
    assert_eq!(
        max_total_latency(&vec![whole(0, 1, 7), lost(1), whole(2, 1, 30), whole(3, 50, 30), half(4, 99)]),
        Some(30)
    );
    assert_eq!(max_total_latency(&vec![whole(0, 0, 0)]), Some(0));
}

#[test]
fn parts_of_a_probe() {
    assert!(has_part(&whole(0, 1, 2), LatencyPart::Up));
    assert!(has_part(&whole(0, 1, 2), LatencyPart::Down));
    assert!(has_part(&whole(0, 1, 2), LatencyPart::Total));
    assert!(has_part(&half(0, 1), LatencyPart::Up));
    assert!(!has_part(&half(0, 1), LatencyPart::Down));
    assert!(!has_part(&half(0, 1), LatencyPart::Total));
    assert!(!has_part(&lost(0), LatencyPart::Up));
    assert!(!has_part(&lost(0), LatencyPart::Down));
    assert!(!has_part(&lost(0), LatencyPart::Total));
}

#[test]
fn a_latency_line_breaks_at_missing_probes() {
    let pings = vec![
        whole(0, 1, 2),
        whole(1, 1, 2),
        half(2, 1),
        whole(3, 1, 2),
        lost(4),
        lost(5),
        half(6, 1),
        whole(7, 1, 2),
    ];
    assert_eq!(
        latency_runs(&pings, LatencyPart::Up),
        vec![run(0, 4), run(6, 8)]
    );
    assert_eq!(
        latency_runs(&pings, LatencyPart::Total),
        vec![run(0, 2), run(3, 4), run(7, 8)]
    );
    assert_eq!(
        latency_runs(&pings, LatencyPart::Down),
        latency_runs(&pings, LatencyPart::Total)
    );
}

#[test]
fn latency_lines_at_the_ends() {
    assert_eq!(latency_runs(&vec![], LatencyPart::Up), vec![]);
    assert_eq!(latency_runs(&vec![lost(0)], LatencyPart::Up), vec![]);
    assert_eq!(latency_runs(&vec![half(0, 3)], LatencyPart::Up), vec![run(0, 1)]);
    assert_eq!(latency_runs(&vec![half(0, 3)], LatencyPart::Total), vec![]);
    assert_eq!(
        latency_runs(&vec![lost(0), whole(1, 1, 2), whole(2, 1, 2)], LatencyPart::Total),
        vec![run(1, 3)]
    );
    assert_eq!(
        latency_runs(&vec![whole(0, 1, 2), lost(1), whole(2, 1, 2)], LatencyPart::Total),
        vec![run(0, 1), run(2, 3)]
    );
}
