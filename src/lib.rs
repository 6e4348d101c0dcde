//! Two small simulators: a pencil that writes, sharpens and erases on a page
//! with finite budgets, and a babysitter's pay over a shift with hourly rates.

pub mod babysitter;
pub mod pencil;
