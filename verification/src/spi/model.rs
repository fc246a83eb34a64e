//! Errors, options and the small records that the store hands around.
use vstd::prelude::*;
use vstd::string::StringExecFns;

verus! {

pub const MAX_KEY: usize = 4096;

pub const MAX_VALUE: usize = 16 * 1024 * 1024;

#[derive(Clone, Debug)]
pub enum Error {
    Io(String),
    Corrupt(String),
    Conflict,
    Locked,
    Budget(String),
    Poisoned,
}

/// An error as a value: which kind, and the text that goes with it.
pub enum Fail {
    Io(Seq<char>),
    Corrupt(Seq<char>),
    Conflict,
    Locked,
    Budget(Seq<char>),
    Poisoned,
}

impl View for Error {
    type V = Fail;

    open spec fn view(&self) -> Fail {
        match *self {
            Error::Io(m) => Fail::Io(m@),
            Error::Corrupt(m) => Fail::Corrupt(m@),
            Error::Conflict => Fail::Conflict,
            Error::Locked => Fail::Locked,
            Error::Budget(m) => Fail::Budget(m@),
            Error::Poisoned => Fail::Poisoned,
        }
    }
}

/// The text under which an error is shown.
pub open spec fn shown(e: Fail) -> Seq<char> {
    match e {
        Fail::Io(m) => "I/O: "@ + m,
        Fail::Corrupt(m) => "corrupt store: "@ + m,
        Fail::Conflict => "transaction conflict"@,
        Fail::Locked => "database is already open"@,
        Fail::Budget(m) => "resource budget: "@ + m,
        Fail::Poisoned => "I/O outcome uncertain: drop handles and reopen"@,
    }
}

impl Error {
    pub fn message(&self) -> (s: String)
        ensures
            s@ == shown(self@),
    {
        match self {
            Error::Io(m) => String::from_str("I/O: ").concat(m.as_str()),
            Error::Corrupt(m) => String::from_str("corrupt store: ").concat(m.as_str()),
            Error::Conflict => String::from_str("transaction conflict"),
            Error::Locked => String::from_str("database is already open"),
            Error::Budget(m) => String::from_str("resource budget: ").concat(m.as_str()),
            Error::Poisoned => String::from_str("I/O outcome uncertain: drop handles and reopen"),
        }
    }
}

pub fn corrupt(m: &str) -> (e: Error)
    ensures
        e@ == Fail::Corrupt(m@),
{
    Error::Corrupt(String::from_str(m))
}

pub fn budget(m: &str) -> (e: Error)
    ensures
        e@ == Fail::Budget(m@),
{
    Error::Budget(String::from_str(m))
}

pub fn io(m: &str) -> (e: Error)
    ensures
        e@ == Fail::Io(m@),
{
    Error::Io(String::from_str(m))
}

/// A key with its value.
#[derive(Clone, Debug, PartialEq, Eq)]
pub struct Entry {
    pub key: Vec<u8>,
    pub value: Vec<u8>,
}

impl View for Entry {
    type V = (Seq<u8>, Seq<u8>);

    open spec fn view(&self) -> (Seq<u8>, Seq<u8>) {
        (self.key@, self.value@)
    }
}

/// The rows that a list of entries stands for.
pub open spec fn entries(v: Seq<Entry>) -> Seq<(Seq<u8>, Seq<u8>)> {
    v.map_values(|e: Entry| e@)
}

#[derive(Clone, Debug)]
pub struct Options {
    pub cache_bytes: usize,
    pub transaction_bytes: usize,
    pub scan_bytes: usize,
    /// Bounded logical mutation journal for predicate and missing-key validation.
    pub conflict_bytes: usize,
    /// Exclusive synthetic fault injection. None in production.
    pub fail_at: Option<usize>,
    /// Fragment writes to exercise complete-transfer handling. None normally.
    pub write_chunk: Option<usize>,
    /// Coalesce immutable records in a writer-private 64 KiB buffer.
    /// False retains the unbuffered control with identical durable barriers.
    pub append_buffer: bool,
    /// Admit small immutable values on point reads within the shared cache budget.
    /// Scans and compaction do not populate the value cache.
    pub value_cache: bool,
    /// Opt-in bulk creation and replacement-only multi-key copy-on-write.
    /// Mixed structural batches and single keys retain the sequential path.
    pub grouped_updates: bool,
    /// Selects the packed page format when a store is created. An existing
    /// store keeps the format that its manifest names.
    pub packed_pages: bool,
}

impl Options {
    pub open spec fn standard(self) -> bool {
        &&& self.cache_bytes == 8 * 1024 * 1024
        &&& self.transaction_bytes == 32 * 1024 * 1024
        &&& self.scan_bytes == 32 * 1024 * 1024
        &&& self.conflict_bytes == 2 * 1024 * 1024
        &&& self.fail_at is None
        &&& self.write_chunk is None
        &&& self.append_buffer
        &&& !self.value_cache
        &&& !self.grouped_updates
        &&& !self.packed_pages
    }

    /// Whether every budget that has to be nonzero is.
    pub open spec fn usable(self) -> bool {
        self.write_chunk != Some(0usize) && self.transaction_bytes != 0 && self.scan_bytes != 0
    }
}

impl Default for Options {
    fn default() -> (o: Options)
        ensures
            o.standard(),
    {
        Options {
            cache_bytes: 8 * 1024 * 1024,
            transaction_bytes: 32 * 1024 * 1024,
            scan_bytes: 32 * 1024 * 1024,
            conflict_bytes: 2 * 1024 * 1024,
            fail_at: None,
            write_chunk: None,
            append_buffer: true,
            value_cache: false,
            grouped_updates: false,
            packed_pages: false,
        }
    }
}

pub fn validate_options(o: &Options) -> (r: Result<(), Error>)
    ensures
        r is Ok <==> o.usable(),
        r matches Err(e) ==> e@ == Fail::Budget("nonzero budgets required"@),
{
    let zero_chunk = match o.write_chunk {
        Some(c) => c == 0,
        None => false,
    };
    if zero_chunk || o.transaction_bytes == 0 || o.scan_bytes == 0 {
        return Err(budget("nonzero budgets required"));
    }
    Ok(())
}

/// A committed version: where its index starts, where its arena ends, and how
/// many keys it has.
#[derive(Clone, Copy, Debug, PartialEq, Eq, Structural)]
pub struct Root {
    pub generation: u64,
    pub epoch: u64,
    pub root: u64,
    pub end: u64,
    pub count: u64,
}

/// Counts of a store. The slots are those that hold something.
#[derive(Clone, Copy, Debug, PartialEq, Eq, Structural)]
pub struct Stats {
    pub generation: u64,
    pub keys: u64,
    pub committed_bytes: u64,
    pub physical_bytes: u64,
    pub packed_format: bool,
    pub cache_bytes: usize,
    pub cache_entries: usize,
    pub cache_map_capacity: usize,
    pub cache_order_capacity: usize,
    pub cache_value_entries: usize,
    pub cache_value_capacity: usize,
    pub cache_page_entries: usize,
    pub cache_page_capacity: usize,
    /// Sums over the retired epochs that are still kept.
    pub retired_cache_map_capacity: usize,
    pub retired_cache_order_capacity: usize,
    pub retired_cache_value_capacity: usize,
    pub retired_cache_page_capacity: usize,
    pub reads: u64,
    pub bytes_read: u64,
    pub bytes_written: u64,
    /// Attempted arena positional writes, including partial transfers.
    pub arena_write_calls: u64,
    pub retained_epochs: usize,
}

} // verus!
