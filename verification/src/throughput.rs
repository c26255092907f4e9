//! The throughput lines of a test run.
//!
//! A run shows up to three lines: the total of the simultaneous phase, the
//! upload and the download. Each line has the rates of one summed series, and
//! names the byte series that make it up.

use crate::aggregate::{point_times, points_of, sample_times, SumSample};
use crate::rates::{can_rate, rateable, rates, to_rates, RateSample};
use crate::result::TestResult;
use vstd::prelude::*;

verus! {

/// One of the throughput lines of a run.
#[derive(Clone, Copy, Debug, PartialEq, Eq, Structural)]
pub enum Line {
    Both,
    Upload,
    Download,
}

/// One of the byte series of a `TestResult` that belong to one kind of group.
#[derive(Clone, Copy, Debug, PartialEq, Eq, Structural)]
pub enum Part {
    Download,
    Upload,
    BothDownload,
    BothUpload,
    Both,
}

/// A throughput line: its rates, and the byte series that it is made of.
///
/// The rates of `Line::Both` name points of `both_bytes`, those of
/// `Line::Upload` points of `combined_upload_bytes`, those of
/// `Line::Download` points of `combined_download_bytes`.
#[derive(Clone, Debug, PartialEq, Eq)]
pub struct Throughput {
    pub line: Line,
    pub rates: Vec<RateSample>,
    pub parts: Vec<Part>,
}

/// The mathematical value of a `Throughput`.
pub struct ThroughputView {
    pub line: Line,
    pub rates: Seq<RateSample>,
    pub parts: Seq<Part>,
}

impl View for Throughput {
    type V = ThroughputView;

    open spec fn view(&self) -> ThroughputView {
        ThroughputView { line: self.line, rates: self.rates@, parts: self.parts@ }
    }
}

/// The values of a list of throughput lines.
pub open spec fn lines_of(lines: Seq<Throughput>) -> Seq<ThroughputView> {
    Seq::new(lines.len(), |i: int| lines[i]@)
}

/// The times of a summed series.
pub open spec fn series_times(data: Vec<SumSample>) -> Seq<u64> {
    point_times(points_of(data@))
}

/// Those of two parts that are present, in their order.
pub open spec fn parts_present(
    first: bool,
    first_part: Part,
    second: bool,
    second_part: Part,
) -> Seq<Part> {
    (if first {
        seq![first_part]
    } else {
        Seq::empty()
    }) + (if second {
        seq![second_part]
    } else {
        Seq::empty()
    })
}

impl TestResult {
    /// Whether the upload line is shown: the run has an upload group.
    pub open spec fn shows_upload(&self) -> bool {
        self.upload_bytes is Some || self.both_upload_bytes is Some
    }

    /// Whether the download line is shown: the run has a download group.
    pub open spec fn shows_download(&self) -> bool {
        self.download_bytes is Some || self.both_download_bytes is Some
    }

    /// Whether each series that a line is drawn from can be turned into
    /// rates.
    pub open spec fn rateable(&self) -> bool {
        &&& self.both_bytes matches Some(data) ==> rateable(series_times(data))
        &&& self.shows_upload() ==> rateable(series_times(self.combined_upload_bytes))
        &&& self.shows_download() ==> rateable(series_times(self.combined_download_bytes))
    }

    /// The line of the simultaneous phase, where the run has that phase.
    pub open spec fn both_line(&self) -> Seq<ThroughputView> {
        match self.both_bytes {
            Some(data) => seq![
                ThroughputView {
                    line: Line::Both,
                    rates: rates(series_times(data)),
                    parts: seq![Part::Both],
                },
            ],
            None => Seq::empty(),
        }
    }

    /// The upload line, where the run has an upload group.
    pub open spec fn upload_line(&self) -> Seq<ThroughputView> {
        if self.shows_upload() {
            seq![
                ThroughputView {
                    line: Line::Upload,
                    rates: rates(series_times(self.combined_upload_bytes)),
                    parts: parts_present(
                        self.upload_bytes is Some,
                        Part::Upload,
                        self.both_upload_bytes is Some,
                        Part::BothUpload,
                    ),
                },
            ]
        } else {
            Seq::empty()
        }
    }

    /// The download line, where the run has a download group.
    pub open spec fn download_line(&self) -> Seq<ThroughputView> {
        if self.shows_download() {
            seq![
                ThroughputView {
                    line: Line::Download,
                    rates: rates(series_times(self.combined_download_bytes)),
                    parts: parts_present(
                        self.download_bytes is Some,
                        Part::Download,
                        self.both_download_bytes is Some,
                        Part::BothDownload,
                    ),
                },
            ]
        } else {
            Seq::empty()
        }
    }

    /// The lines of the run, in the order in which they are drawn.
    pub open spec fn lines(&self) -> Seq<ThroughputView> {
        self.both_line() + self.upload_line() + self.download_line()
    }

    /// Says whether the throughput lines of the run can be computed.
    pub fn can_rate(&self) -> (yes: bool)
        ensures
            yes == self.rateable(),
    {
        let both = match &self.both_bytes {
            Some(data) => can_rate(&sample_times(data)),
            None => true,
        };
        let upload = !(self.upload_bytes.is_some() || self.both_upload_bytes.is_some())
            || can_rate(&sample_times(&self.combined_upload_bytes));
        let download = !(self.download_bytes.is_some() || self.both_download_bytes.is_some())
            || can_rate(&sample_times(&self.combined_download_bytes));
        both && upload && download
    }

    /// The throughput lines of the run, in the order in which they are
    /// drawn: the simultaneous phase, the upload, the download, each only
    /// where the run has it.
    pub fn throughput(&self) -> (lines: Vec<Throughput>)
        requires
            self.rateable(),
        ensures
            lines_of(lines@) == self.lines(),
    {
        let mut lines: Vec<Throughput> = Vec::new();
        match &self.both_bytes {
            Some(data) => {
                let mut parts: Vec<Part> = Vec::new();
                parts.push(Part::Both);
                lines.push(
                    Throughput { line: Line::Both, rates: to_rates(&sample_times(data)), parts },
                );
            },
            None => {},
        }
        proof {
            assert(lines_of(lines@) =~= self.both_line());
        }
        if self.upload_bytes.is_some() || self.both_upload_bytes.is_some() {
            let mut parts: Vec<Part> = Vec::new();
            if self.upload_bytes.is_some() {
                parts.push(Part::Upload);
            }
            if self.both_upload_bytes.is_some() {
                parts.push(Part::BothUpload);
            }
            proof {
                assert(parts@ =~= parts_present(
                    self.upload_bytes is Some,
                    Part::Upload,
                    self.both_upload_bytes is Some,
                    Part::BothUpload,
                ));
            }
            lines.push(
                Throughput {
                    line: Line::Upload,
                    rates: to_rates(&sample_times(&self.combined_upload_bytes)),
                    parts,
                },
            );
        }
        proof {
            assert(lines_of(lines@) =~= self.both_line() + self.upload_line());
        }
        if self.download_bytes.is_some() || self.both_download_bytes.is_some() {
            let mut parts: Vec<Part> = Vec::new();
            if self.download_bytes.is_some() {
                parts.push(Part::Download);
            }
            if self.both_download_bytes.is_some() {
                parts.push(Part::BothDownload);
            }
            proof {
                assert(parts@ =~= parts_present(
                    self.download_bytes is Some,
                    Part::Download,
                    self.both_download_bytes is Some,
                    Part::BothDownload,
                ));
            }
            lines.push(
                Throughput {
                    line: Line::Download,
                    rates: to_rates(&sample_times(&self.combined_download_bytes)),
                    parts,
                },
            );
        }
        proof {
            assert(lines_of(lines@) =~= self.lines());
        }
        lines
    }
}

} // verus!
