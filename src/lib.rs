pub mod file_util;
pub mod instruction;
pub mod line_item;
pub mod scan_job;
pub mod scan_job_args;
pub mod size_cache;
