//! Scheduler decision log entries, recorded for replay and UI animation.

use vstd::prelude::*;

use crate::model::copy_strings;

verus! {

/// A single schedulable moment.
#[derive(Debug, Clone)]
pub struct SchedulerDecision {
    pub time: u64,
    pub kind: String,
    pub job_id: Option<String>,
    pub job_name: Option<String>,
    pub gpu_ids: Vec<String>,
    pub message: String,
}

impl SchedulerDecision {
    /// A decision not yet tied to a job or GPUs.
    pub fn new(time: u64, kind: &str, message: String) -> (d: SchedulerDecision)
        ensures
            d.time == time,
            d.kind@ == kind@,
            d.job_id is None,
            d.job_name is None,
            d.gpu_ids@.len() == 0,
            d.message == message,
    {
        SchedulerDecision {
            time,
            kind: kind.to_owned(),
            job_id: None,
            job_name: None,
            gpu_ids: Vec::new(),
            message,
        }
    }

    /// The same decision, tied to job `job_id` named `job_name`.
    pub fn with_job(self, job_id: &str, job_name: &str) -> (d: SchedulerDecision)
        ensures
            d.time == self.time,
            d.kind == self.kind,
            d.job_id matches Some(i) && i@ == job_id@,
            d.job_name matches Some(n) && n@ == job_name@,
            d.gpu_ids@ == self.gpu_ids@,
            d.message == self.message,
    {
        let mut d = self;
        d.job_id = Some(job_id.to_owned());
        d.job_name = Some(job_name.to_owned());
        d
    }

    /// The same decision, listing `gpu_ids`.
    pub fn with_gpus(self, gpu_ids: Vec<String>) -> (d: SchedulerDecision)
        ensures
            d.time == self.time,
            d.kind == self.kind,
            d.job_id == self.job_id,
            d.job_name == self.job_name,
            d.gpu_ids@ == gpu_ids@,
            d.message == self.message,
    {
        let mut d = self;
        d.gpu_ids = gpu_ids;
        d
    }

    pub fn duplicate(&self) -> (r: SchedulerDecision)
        ensures
            r.time == self.time,
            r.kind == self.kind,
            r.job_id == self.job_id,
            r.job_name == self.job_name,
            r.gpu_ids@ == self.gpu_ids@,
            r.message == self.message,
    {
        SchedulerDecision {
            time: self.time,
            kind: self.kind.clone(),
            job_id: crate::model::copy_opt_string(&self.job_id),
            job_name: crate::model::copy_opt_string(&self.job_name),
            gpu_ids: copy_strings(&self.gpu_ids),
            message: self.message.clone(),
        }
    }
}

} // verus!
