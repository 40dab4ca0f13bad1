//! Reassembly of split WAL payloads.
//!
//! A payload larger than the per-value size limit is stored as several
//! consecutive entries of one `(region, table, sequence)`, each key carrying
//! the number of payload bytes still to come. The collector concatenates the
//! parts back, in scan order, into one integrate log.

use vstd::prelude::*;
use crate::walkey::{CommonLogKey, spec_has_remaining};

verus! {

/// Collects an integrate log from consecutive log parts.
pub struct IntegrateLogCollector {
    /// Key of the most recent collected part, if any.
    pub log_key: Option<CommonLogKey>,
    /// The payload bytes collected so far.
    pub log_payload: Vec<u8>,
}

/// Whether the collector holds a complete log: a key was collected and no
/// payload bytes of it remain in later parts.
pub open spec fn spec_is_integrate(c: IntegrateLogCollector) -> bool {
    match c.log_key {
        Some(k) => !spec_has_remaining(k),
        None => false,
    }
}

/// Whether `new_key` continues the log the collector holds: same region,
/// table and sequence as the collected key.
pub open spec fn spec_is_part(c: IntegrateLogCollector, new_key: CommonLogKey) -> bool {
    match c.log_key {
        Some(k) => k.region_id == new_key.region_id && k.table_id == new_key.table_id
            && k.sequence_num == new_key.sequence_num,
        None => false,
    }
}

impl Default for IntegrateLogCollector {
    /// An empty collector.
    fn default() -> (r: Self)
        ensures
            r.log_key is None,
            r.log_payload@ == Seq::<u8>::empty(),
    {
        IntegrateLogCollector { log_key: None, log_payload: Vec::new() }
    }
}

impl IntegrateLogCollector {
    /// Collect the next log part.
    ///
    /// A complete collected log is kept unchanged. A part of the log being
    /// collected is appended to it. Anything else restarts collection with
    /// the new part, dropping what was collected.
    pub fn collect(&mut self, new_log_key: CommonLogKey, new_log_payload: &[u8])
        ensures
            old(self).log_key is None ==> final(self).log_key == Some(new_log_key)
                && final(self).log_payload@ == new_log_payload@,
            old(self).log_key is Some && spec_is_integrate(*old(self)) ==> *final(self) == *old(
                self,
            ),
            old(self).log_key is Some && !spec_is_integrate(*old(self)) && spec_is_part(
                *old(self),
                new_log_key,
            ) ==> final(self).log_key == Some(new_log_key) && final(self).log_payload@ == old(
                self,
            ).log_payload@ + new_log_payload@,
            old(self).log_key is Some && !spec_is_integrate(*old(self)) && !spec_is_part(
                *old(self),
                new_log_key,
            ) ==> final(self).log_key == Some(new_log_key) && final(self).log_payload@
                == new_log_payload@,
    {
        if self.log_key.is_none() {
            // Init the log key and value.
            self.init_log(new_log_key, new_log_payload);
            return ;
        }
        // Check whether the collected log is already integrate.
        if self.is_integrate() {
            return ;
        }
        // Check whether the new log continues the being-collected log.
        if self.is_part_log(&new_log_key) {
            // The new log is part of the being-collected log: merge them.
            self.merge_log(new_log_key, new_log_payload);
        } else {
            // Drop the collected log and restart: it cannot become integrate.
            self.init_log(new_log_key, new_log_payload);
        }
    }

    /// Hand the collected key and payload out and reset the collector.
    pub fn take_log(&mut self) -> (r: (Option<CommonLogKey>, Vec<u8>))
        ensures
            r.0 == old(self).log_key,
            r.1@ == old(self).log_payload@,
            final(self).log_key is None,
            final(self).log_payload@ == Seq::<u8>::empty(),
    {
        let key = self.log_key.take();
        let mut payload: Vec<u8> = Vec::new();
        core::mem::swap(&mut payload, &mut self.log_payload);
        (key, payload)
    }

    /// Whether the collector holds a complete log.
    #[inline]
    pub fn is_integrate(&self) -> (r: bool)
        ensures
            r == spec_is_integrate(*self),
    {
        match &self.log_key {
            Some(k) => !k.has_remaining(),
            None => false,
        }
    }

    /// Start collecting a new log.
    pub fn init_log(&mut self, new_log_key: CommonLogKey, new_log_payload: &[u8])
        ensures
            final(self).log_key == Some(new_log_key),
            final(self).log_payload@ == new_log_payload@,
    {
        self.log_key = Some(new_log_key);
        let mut payload: Vec<u8> = Vec::new();
        payload.extend_from_slice(new_log_payload);
        proof {
            assert(payload@ =~= new_log_payload@);
        }
        self.log_payload = payload;
    }

    /// Whether `new_log_key` continues the log being collected.
    pub fn is_part_log(&self, new_log_key: &CommonLogKey) -> (r: bool)
        requires
            self.log_key is Some,
        ensures
            r == spec_is_part(*self, *new_log_key),
    {
        match &self.log_key {
            Some(k) => k.region_id == new_log_key.region_id && k.table_id == new_log_key.table_id
                && k.sequence_num == new_log_key.sequence_num,
            None => false,
        }
    }

    /// Append a further part of the log being collected.
    pub fn merge_log(&mut self, new_log_key: CommonLogKey, new_log_payload: &[u8])
        ensures
            final(self).log_key == Some(new_log_key),
            final(self).log_payload@ == old(self).log_payload@ + new_log_payload@,
    {
        self.log_key = Some(new_log_key);
        self.log_payload.extend_from_slice(new_log_payload);
    }
}

} // verus!
