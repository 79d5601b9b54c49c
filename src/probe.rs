use vstd::prelude::*;

verus! {

/// Running latency aggregate of one backend: the number of successful probes
/// and the sum of their latencies in milliseconds.
#[derive(Clone, Copy)]
pub struct ProbeStats {
    pub successes: u64,
    pub total_ms: u128,
}

/// What one probe reports: the backend measured, the latency of this probe
/// (absent on timeout or transport failure) and the running mean afterwards.
pub struct ProbeResult {
    pub backend_name: String,
    pub latency: Option<u64>,
    pub mean_latency: Option<u64>,
}

impl ProbeStats {
    /// The sum never exceeds what `successes` latencies of at most `u64::MAX` give.
    pub open spec fn wf(&self) -> bool {
        self.total_ms <= self.successes as int * u64::MAX as int
    }

    /// The arithmetic mean of the successful latencies, rounded down; none before
    /// the first success.
    pub open spec fn mean_spec(&self) -> Option<u64> {
        if self.successes == 0 {
            None
        } else {
            Some((self.total_ms as int / self.successes as int) as u64)
        }
    }

    /// The aggregate after one probe outcome: a success is counted and summed,
    /// a failure changes nothing.
    pub open spec fn record_spec(self, latency: Option<u64>) -> ProbeStats {
        match latency {
            Some(d) => ProbeStats {
                successes: (self.successes + 1) as u64,
                total_ms: (self.total_ms + d) as u128,
            },
            None => self,
        }
    }

    /// The aggregate of a backend that has not been probed yet.
    pub open spec fn fresh() -> ProbeStats {
        ProbeStats { successes: 0, total_ms: 0 }
    }

    pub fn new() -> (r: Self)
        ensures
            r.wf(),
            r == ProbeStats::fresh(),
            r.mean_spec() == None::<u64>,
    {
        ProbeStats { successes: 0, total_ms: 0 }
    }

    pub fn mean(&self) -> (r: Option<u64>)
        requires
            self.wf(),
        ensures
            r == self.mean_spec(),
            r is Some ==> self.total_ms as int / self.successes as int <= u64::MAX,
    {
        if self.successes == 0 {
            None
        } else {
            let s = self.successes as u128;
            proof {
                let t = self.total_ms as int;
                let n = self.successes as int;
                let m = u64::MAX as int;
                assert(t / n <= m) by (nonlinear_arith)
                    requires
                        0 <= t <= n * m,
                        n > 0,
                        m > 0,
                ;
            }
            Some((self.total_ms / s) as u64)
        }
    }

    /// Folds one probe outcome into the aggregate and returns the mean after it.
    pub fn record(&mut self, latency: Option<u64>) -> (r: Option<u64>)
        requires
            old(self).wf(),
            old(self).successes < u64::MAX,
        ensures
            final(self).wf(),
            *final(self) == old(self).record_spec(latency),
            r == final(self).mean_spec(),
    {
        match latency {
            Some(d) => {
                proof {
                    let t = self.total_ms as int;
                    let n = self.successes as int;
                    let m = u64::MAX as int;
                    assert(t + d <= (n + 1) * m && (n + 1) * m < u128::MAX) by (nonlinear_arith)
                        requires
                            0 <= t <= n * m,
                            0 <= n < m,
                            0 <= d <= m,
                            m == 0xffff_ffff_ffff_ffff,
                            u128::MAX == 0xffff_ffff_ffff_ffff_ffff_ffff_ffff_ffff,
                    ;
                }
                self.successes = self.successes + 1;
                self.total_ms = self.total_ms + d as u128;
            },
            None => {},
        }
        self.mean()
    }
}

impl ProbeResult {
    /// Folds the outcome of one probe of `backend_name` into `stats` and reports it.
    pub fn fold(backend_name: String, stats: &mut ProbeStats, latency: Option<u64>) -> (r: Self)
        requires
            old(stats).wf(),
            old(stats).successes < u64::MAX,
        ensures
            final(stats).wf(),
            *final(stats) == old(stats).record_spec(latency),
            r.backend_name@ == backend_name@,
            r.latency == latency,
            r.mean_latency == final(stats).mean_spec(),
    {
        let mean = stats.record(latency);
        ProbeResult { backend_name, latency, mean_latency: mean }
    }
}

/// A failed probe leaves the running mean exactly where it was.
pub proof fn lemma_failed_probe_keeps_mean(stats: ProbeStats)
    ensures
        stats.record_spec(None).mean_spec() == stats.mean_spec(),
        stats.record_spec(None) == stats,
{
}

/// After one success of latency `d` on a fresh backend, and after any failure
/// that follows it, the mean is `d`.
pub proof fn lemma_mean_of_single_success(d: u64)
    ensures
        ProbeStats::fresh().record_spec(Some(d)).mean_spec() == Some(d),
        ProbeStats::fresh().record_spec(Some(d)).record_spec(None).mean_spec() == Some(d),
{
    let once = ProbeStats::fresh().record_spec(Some(d));
    assert(once.record_spec(None) == once);
}

} // verus!
