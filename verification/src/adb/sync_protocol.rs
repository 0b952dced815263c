//! Direct ADB sync protocol (LIST/STAT/RECV/SEND/DONE over 8-byte packets).
//!
//! The client talks to the device through the `adb` command line, which uses
//! the sync protocol under the hood; a direct implementation over TCP to
//! localhost:5037 is reserved for later.
use vstd::prelude::*;

verus! {

/// Direct sync-protocol client (reserved for a future transport).
pub struct SyncClient;

impl SyncClient {
    pub fn new() -> (c: Self)
        ensures
            c == SyncClient,
    {
        SyncClient
    }
}

} // verus!
