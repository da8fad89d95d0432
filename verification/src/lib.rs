//! Trailing simple-moving-average analysis over a dated price series.
//!
//! The library normalizes an unordered collection of (date, price-text)
//! records into a strictly ordered series, feeds it through a bounded
//! FIFO sliding-window averager, and derives an Up/Down signal for each
//! day whose window is full. Prices travel as fixed-point integers in
//! ten-thousandths of a currency unit; parsing the provider's decimal
//! text is part of the library.

pub mod average;
pub mod dates;
pub mod prices;
pub mod series;

use vstd::prelude::*;
use crate::average::ConfigurationError;
use crate::average::SmaPoint;
use crate::average::compute_sma;
use crate::average::sma_points_ok;
use crate::series::Observation;
use crate::series::ParseError;
use crate::series::SortOrder;
use crate::series::TechnicalAnalysisResponse;
use crate::series::desc_view;
use crate::series::error_matches;
use crate::series::normalize;
use crate::series::normalize_post_desc;
use crate::series::parsed_obs;
use crate::series::record_ok;

verus! {

/// Everything the analysis pipeline can fail with.
#[derive(Clone, Debug)]
pub enum AnalysisError {
    Configuration(ConfigurationError),
    Parse(ParseError),
}

/// Rejects a zero window size or a zero day limit, before any data is
/// fetched or processed.
pub fn validate_config(window_size: usize, limit: usize) -> (r: Result<(), ConfigurationError>)
    ensures
        r is Ok <==> window_size >= 1 && limit >= 1,
        window_size == 0 ==> r == Err::<(), ConfigurationError>(ConfigurationError::ZeroWindowSize),
        window_size >= 1 && limit == 0 ==> r == Err::<(), ConfigurationError>(
            ConfigurationError::ZeroLimit,
        ),
{
    if window_size == 0 {
        Err(ConfigurationError::ZeroWindowSize)
    } else if limit == 0 {
        Err(ConfigurationError::ZeroLimit)
    } else {
        Ok(())
    }
}

/// A correct analysis of the records `raw`: some series — the
/// normalization of `raw` to the `limit` most recent trading days,
/// in chronological order — fed through a window of `window_size`
/// yields exactly these points.
pub open spec fn analysis_ok(
    raw: Seq<(String, crate::series::SmaData)>,
    window_size: int,
    limit: int,
    points: Seq<SmaPoint>,
) -> bool {
    exists|ser: Seq<Observation>|
        {
            &&& #[trigger] sma_points_ok(ser, points, window_size)
            &&& normalize_post_desc(parsed_obs(raw), limit, ser.reverse())
        }
}

/// The whole pipeline over already-fetched data: reject a bad
/// configuration; normalize the records into a chronological,
/// deduplicated series of the `limit` most recent trading days; feed
/// it once, oldest first, through a fresh sliding-window averager.
/// Succeeds exactly when the configuration is sound and every record
/// parses.
#[verifier::rlimit(30)]
pub fn analyze(response: &TechnicalAnalysisResponse, window_size: usize, limit: usize) -> (r:
    Result<Vec<SmaPoint>, AnalysisError>)
    ensures
        r is Ok <==> (window_size >= 1 && limit >= 1 && (forall|i: int|
            0 <= i < response.technical_analysis@.len() ==> record_ok(
                #[trigger] response.technical_analysis@[i],
            ))),
        window_size == 0 ==> r == Err::<Vec<SmaPoint>, AnalysisError>(
            AnalysisError::Configuration(ConfigurationError::ZeroWindowSize),
        ),
        window_size >= 1 && limit == 0 ==> r == Err::<Vec<SmaPoint>, AnalysisError>(
            AnalysisError::Configuration(ConfigurationError::ZeroLimit),
        ),
        r matches Err(AnalysisError::Configuration(c)) ==> window_size == 0 || limit == 0,
        r matches Err(AnalysisError::Parse(e)) ==> exists|i: int|
            error_matches(response.technical_analysis@, e, i),
        r matches Ok(points) ==> analysis_ok(
            response.technical_analysis@,
            window_size as int,
            limit as int,
            points@,
        ),
{
    match validate_config(window_size, limit) {
        Ok(()) => {},
        Err(c) => {
            return Err(AnalysisError::Configuration(c));
        },
    }
    let series = match normalize(&response.technical_analysis, limit, SortOrder::Ascending) {
        Ok(v) => v,
        Err(e) => {
            return Err(AnalysisError::Parse(e));
        },
    };
    match compute_sma(&series, window_size) {
        Ok(points) => {
            proof {
                assert(desc_view(series@, SortOrder::Ascending) == series@.reverse());
                assert(normalize_post_desc(
                    parsed_obs(response.technical_analysis@),
                    limit as int,
                    series@.reverse(),
                ));
                assert(sma_points_ok(series@, points@, window_size as int));
                assert(analysis_ok(
                    response.technical_analysis@,
                    window_size as int,
                    limit as int,
                    points@,
                ));
            }
            Ok(points)
        },
        Err(c) => Err(AnalysisError::Configuration(c)),
    }
}

} // verus!
