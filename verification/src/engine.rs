//! Admission bounds of the bundle evaluation engine and the first checks a
//! bundle passes before it is evaluated.

use vstd::prelude::*;

use crate::fmt::{decimal, decimal_text, utf8_text};
use crate::names::EvaluationError;

verus! {

/// Hard limits of isolate work: worker threads, queued jobs per worker,
/// bundle, output and heap sizes in bytes, the evaluation deadline in
/// milliseconds, and the worker stack size in bytes.
#[derive(Clone, Copy, Debug, PartialEq, Eq, Structural)]
pub struct EngineConfig {
    pub workers: usize,
    pub queue_capacity_per_worker: usize,
    pub max_bundle_bytes: usize,
    pub max_output_bytes: usize,
    pub max_heap_bytes: usize,
    pub timeout_millis: u64,
    pub worker_stack_bytes: usize,
}

impl EngineConfig {
    /// The default limits for `workers` threads: 8 queued jobs per worker,
    /// 2 MiB bundles, 4 MiB outputs, a 64 MiB heap, a 250 ms deadline and
    /// an 8 MiB stack.
    pub fn with_workers(workers: usize) -> (config: Self)
        ensures
            config.workers == workers,
            config.queue_capacity_per_worker == 8,
            config.max_bundle_bytes == 2 * 1024 * 1024,
            config.max_output_bytes == 4 * 1024 * 1024,
            config.max_heap_bytes == 64 * 1024 * 1024,
            config.timeout_millis == 250,
            config.worker_stack_bytes == 8 * 1024 * 1024,
    {
        EngineConfig {
            workers,
            queue_capacity_per_worker: 8,
            max_bundle_bytes: 2 * 1024 * 1024,
            max_output_bytes: 4 * 1024 * 1024,
            max_heap_bytes: 64 * 1024 * 1024,
            timeout_millis: 250,
            worker_stack_bytes: 8 * 1024 * 1024,
        }
    }
}

/// The smallest heap an isolate may be given: 8 MiB.
pub const MIN_HEAP_BYTES: usize = 8388608;

/// The engine's admission checks on its limits: at least one worker, and a
/// heap of at least 8 MiB; otherwise the error says which is violated,
/// workers first.
pub fn check_config(config: &EngineConfig) -> (r: Result<(), EvaluationError>)
    ensures
        config.workers == 0 ==> (r matches Err(e) && e.message@
            == "evaluation engine requires at least one isolate worker"@),
        config.workers > 0 && config.max_heap_bytes < MIN_HEAP_BYTES ==> (r matches Err(e) && e.message@
            == "evaluation heap limit must be at least 8 MiB"@),
        config.workers > 0 && config.max_heap_bytes >= MIN_HEAP_BYTES ==> r is Ok,
{
    if config.workers == 0 {
        return Err(EvaluationError::new(String::from_str("evaluation engine requires at least one isolate worker")));
    }
    if config.max_heap_bytes < MIN_HEAP_BYTES {
        return Err(EvaluationError::new(String::from_str("evaluation heap limit must be at least 8 MiB")));
    }
    Ok(())
}

/// Admits a bundle's bytes as JavaScript source: no larger than the bundle
/// limit, and valid UTF-8.
pub fn bundle_source(source: Vec<u8>, config: &EngineConfig) -> (r: Result<String, EvaluationError>)
    ensures
        source@.len() > config.max_bundle_bytes ==> (r matches Err(e) && e.message@ == "bundle is "@ + decimal(
            source@.len(),
        ) + " bytes, exceeding the "@ + decimal(config.max_bundle_bytes as nat) + " byte limit"@),
        source@.len() <= config.max_bundle_bytes && (forall|c: Seq<char>| vstd::utf8::encode_utf8(c) != source@) ==> (r matches Err(
            e,
        ) && e.message@ == "bundle is not UTF-8 JavaScript source"@),
        source@.len() <= config.max_bundle_bytes && (exists|c: Seq<char>| vstd::utf8::encode_utf8(c) == source@) ==> (r matches Ok(
            text,
        ) && vstd::utf8::encode_utf8(text@) == source@),
{
    let n = source.len();
    if n > config.max_bundle_bytes {
        let mut m = String::from_str("bundle is ");
        let a = decimal_text(n as u64);
        m.append(a.as_str());
        m.append(" bytes, exceeding the ");
        let b = decimal_text(config.max_bundle_bytes as u64);
        m.append(b.as_str());
        m.append(" byte limit");
        return Err(EvaluationError { message: m });
    }
    match utf8_text(source) {
        Some(text) => Ok(text),
        None => Err(EvaluationError { message: String::from_str("bundle is not UTF-8 JavaScript source") }),
    }
}

} // verus!
