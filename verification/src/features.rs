use vstd::prelude::*;

verus! {

/// Which passes run for one invocation. Indexing is mandatory: it produces
/// the document and page counts and the positions every other pass reports
/// against. Everything else is opt-in.
#[derive(Debug, Clone, Copy)]
pub struct Features {
    pub index: bool,
    pub dump_nop: bool,
    pub dump_tle: bool,
    /// splitting is on exactly when a size was given, and carries it
    pub max_size: Option<u64>,
}

impl Features {
    pub fn new(max_size: Option<u64>, dump_nop: bool, dump_tle: bool) -> (f: Self)
        ensures
            f.index,
            f.dump_nop == dump_nop,
            f.dump_tle == dump_tle,
            f.max_size == max_size,
    {
        Features { index: true, dump_nop, dump_tle, max_size }
    }

    /// Only when this holds does anything seek back into the file to decode
    /// whole records.
    pub fn needs_record_decode(&self) -> (b: bool)
        ensures
            b == (self.dump_nop || self.dump_tle),
    {
        self.dump_nop || self.dump_tle
    }
}

impl Default for Features {
    fn default() -> (f: Self)
        ensures
            f.index,
            !f.dump_nop,
            !f.dump_tle,
            f.max_size is None,
    {
        Self::new(None, false, false)
    }
}

} // verus!
