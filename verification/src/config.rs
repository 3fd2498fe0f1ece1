//! Configuration shapes the orchestrator is driven by.

use vstd::prelude::*;

verus! {

/// The scheduled stats announcement: a cron expression, whether it runs,
/// the message sent with the chart, and the destination channel.
#[derive(Debug, Clone, PartialEq, Eq)]
pub struct ScheduledStats {
    pub message: String,
    pub schedule: String,
    pub enabled: bool,
    pub channel_id: u64,
}

impl Default for ScheduledStats {
    /// The announcement as first configured: daily at nine, disabled until
    /// a deployment turns it on.
    fn default() -> (r: ScheduledStats)
        ensures
            r.message@
                == "Good morning! Here are the scheduled profits (or losses) from yesterdays operation \u{1f4b8}"@,
            r.schedule@ == "0 0 9 * * *"@,
            !r.enabled,
            r.channel_id == 29384550,
    {
        ScheduledStats {
            message: String::from_str(
                "Good morning! Here are the scheduled profits (or losses) from yesterdays operation \u{1f4b8}",
            ),
            schedule: String::from_str("0 0 9 * * *"),
            enabled: false,
            channel_id: 29384550,
        }
    }
}

} // verus!
