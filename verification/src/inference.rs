//! What an inference job asks of the serving model.

use vstd::prelude::*;

use crate::job::Job;

verus! {

/// Largest batch a serving profile runs by default.
pub fn default_max_batch() -> (n: u32)
    ensures
        n == 32,
{
    32
}

/// Token counts and parallelism of one inference request.
#[derive(Debug, Clone, Copy)]
pub struct InferenceRequest {
    pub input_tokens: u32,
    pub output_tokens: u32,
    pub batch_size: u32,
    pub concurrency: u32,
}

/// `x`, or one when it is absent or zero.
pub open spec fn at_least_one(x: Option<u32>) -> u32 {
    match x {
        Some(v) => if v >= 1 { v } else { 1 },
        None => 1,
    }
}

impl InferenceRequest {
    /// The request a job describes, when it carries both token counts; batch
    /// size and concurrency default to one and are at least one.
    pub fn from_job(job: &Job) -> (r: Option<InferenceRequest>)
        ensures
            (job.input_tokens is Some && job.output_tokens is Some) <==> r is Some,
            r matches Some(q) ==> q.input_tokens == job.input_tokens->0 && q.output_tokens == job.output_tokens->0
                && q.batch_size == at_least_one(job.batch_size) && q.concurrency == at_least_one(job.concurrency),
    {
        let input_tokens = match job.input_tokens {
            Some(n) => n,
            None => return None,
        };
        let output_tokens = match job.output_tokens {
            Some(n) => n,
            None => return None,
        };
        let batch_size = match job.batch_size {
            Some(b) => if b >= 1 { b } else { 1 },
            None => 1,
        };
        let concurrency = match job.concurrency {
            Some(c) => if c >= 1 { c } else { 1 },
            None => 1,
        };
        Some(InferenceRequest { input_tokens, output_tokens, batch_size, concurrency })
    }
}

} // verus!
