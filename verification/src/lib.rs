use vstd::prelude::*;

pub mod calendar;
pub mod capture;
pub mod headline;
pub mod links;
pub mod local_time;
pub mod list;
pub mod options;
pub mod org_date;
pub mod planning;
pub mod properties;
pub mod refile;
pub mod repeat;
pub mod roam;
pub mod roam_backlinks;
pub mod roam_capture;
pub mod subtree;
pub mod text;
pub mod timestamp;
pub mod todo;
