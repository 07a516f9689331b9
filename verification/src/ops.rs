//! The two operations' configuration.
//!
//! Argument parsing lives outside the library; what arrives here are
//! the plain settings each operation runs under, and the one piece of
//! arithmetic the command line needs: turning a megabyte count into a
//! byte count without overflow.

use vstd::prelude::*;
use crate::hexnum::{all_digits, dec_val, parse_u64, lemma_dec_val_nonneg};

verus! {

/// Default root to index.
pub const DEFAULT_PATH: &'static str = ".";

/// Default read-buffer size in bytes.
pub const DEFAULT_READ_BUFFER_SIZE: u64 = 8 * 1024 * 1024;

/// Settings of one indexing pass.
pub struct StashOperation<'a> {
    pub topdirs: Vec<&'a str>,
    pub dbfile: &'a str,
    pub bufsize: u64,
    pub verbose: bool,
    pub force_db_overwrite: bool,
    pub force_read: bool,
    pub force_sha512: bool,
    pub only_slowhash: bool,
}

/// Settings of one duplicate report.
pub struct DupOperation<'a> {
    pub dbfile: &'a str,
    pub verbose: bool,
    pub to_prune: bool,
}

/// Parses a buffer size given in megabytes into bytes. Exactly the
/// decimal texts whose value in bytes fits in 64 bits are accepted.
pub fn parse_buffer_megabytes(s: &str) -> (r: Option<u64>)
    ensures
        match r {
            Some(v) => s@.len() > 0 && all_digits(s@) && v as int == dec_val(s@) * 0x100000,
            None => s@.len() == 0 || !all_digits(s@) || dec_val(s@) * 0x100000 > u64::MAX,
        },
{
    match parse_u64(s) {
        Some(m) => {
            if m <= u64::MAX / 0x100000 {
                proof {
                    assert(m as int * 0x100000 <= u64::MAX) by (nonlinear_arith)
                        requires
                            0 <= m as int <= u64::MAX as int / 0x100000,
                    ;
                }
                Some(m * 0x100000)
            } else {
                proof {
                    assert(m as int * 0x100000 > u64::MAX) by (nonlinear_arith)
                        requires
                            m as int > u64::MAX as int / 0x100000,
                    ;
                }
                None
            }
        },
        None => {
            proof {
                if s@.len() > 0 && all_digits(s@) {
                    lemma_dec_val_nonneg(s@);
                    assert(dec_val(s@) * 0x100000 > u64::MAX) by (nonlinear_arith)
                        requires
                            dec_val(s@) > u64::MAX,
                    ;
                }
            }
            None
        },
    }
}

} // verus!
