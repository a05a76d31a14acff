//! The run configuration.
//!
//! One immutable value built once from the command line and passed
//! explicitly to every component that needs it; there is no process-wide
//! mutable state. The numeric arguments arrive as raw byte strings and are
//! parsed here, with the documented defaults filled in.
use vstd::prelude::*;
use crate::MosaicError;

verus! {

/// Default edge length of the square source regions, in pixels.
pub const DEFAULT_PIXEL_GROUP_SIZE: u32 = 16;

/// Default integer factor by which the output is larger than the source.
pub const DEFAULT_MAGNIFICATION: u32 = 2;

/// Default number of worker threads.
pub const DEFAULT_THREADS: usize = 2;

/// The immutable configuration of one run.
pub struct MosaicConfig {
    /// Edge length of the square source regions, in pixels.
    pub block_size: u32,
    /// Integer factor by which the output is larger than the source.
    pub magnification: u32,
    /// Number of worker threads for indexing and compositing.
    pub threads: usize,
    /// Whether closest-color answers are memoized.
    pub color_caching: bool,
    /// Verbosity level of the surrounding program; no effect on results.
    pub verbosity: usize,
    /// Whether the surrounding program prints stage timings.
    pub print_timings: bool,
}

impl MosaicConfig {
    /// Block size and magnification are positive and a tile fits in the
    /// coordinate space.
    pub open spec fn wf(&self) -> bool {
        self.block_size >= 1 && self.magnification >= 1 && self.block_size as int
            * self.magnification as int <= u32::MAX
    }
}

/// An ASCII decimal digit.
pub open spec fn is_digit(b: u8) -> bool {
    48 <= b <= 57
}

/// Every byte is a decimal digit.
pub open spec fn all_digits(s: Seq<u8>) -> bool {
    forall|i: int| 0 <= i < s.len() ==> is_digit(#[trigger] s[i])
}

/// The number a digit string denotes.
pub open spec fn dec_val(s: Seq<u8>) -> int
    decreases s.len(),
{
    if s.len() == 0 {
        0
    } else {
        dec_val(s.drop_last()) * 10 + (s.last() - 48)
    }
}

proof fn lemma_dec_val_nonneg(s: Seq<u8>)
    requires
        all_digits(s),
    ensures
        dec_val(s) >= 0,
    decreases s.len(),
{
    if s.len() > 0 {
        assert(forall|i: int| 0 <= i < s.len() - 1 ==> s.drop_last()[i] == s[i]);
        lemma_dec_val_nonneg(s.drop_last());
    }
}

/// A digit string denotes at least what any of its prefixes denotes.
proof fn lemma_dec_val_prefix(s: Seq<u8>, i: int)
    requires
        all_digits(s),
        0 <= i <= s.len(),
    ensures
        dec_val(s.take(i)) <= dec_val(s),
    decreases s.len() - i,
{
    if i < s.len() {
        lemma_dec_val_prefix(s, i + 1);
        let t = s.take(i + 1);
        assert(t.drop_last() =~= s.take(i));
        assert(all_digits(s.take(i))) by {
            assert(forall|k: int| 0 <= k < i ==> s.take(i)[k] == s[k]);
        }
        lemma_dec_val_nonneg(s.take(i));
        assert(dec_val(s.take(i)) <= dec_val(s.take(i)) * 10 + (t.last() - 48)) by {
            assert(dec_val(s.take(i)) * 10 >= dec_val(s.take(i))) by (nonlinear_arith)
                requires dec_val(s.take(i)) >= 0;
            assert(is_digit(s[i]));
        }
    } else {
        assert(s.take(i) =~= s);
    }
}

/// Parses an unsigned decimal number: succeeds exactly on non-empty
/// all-digit strings whose value fits.
pub fn parse_u32(s: &Vec<u8>) -> (r: Option<u32>)
    ensures
        match r {
            Some(v) => s@.len() > 0 && all_digits(s@) && v == dec_val(s@),
            None => s@.len() == 0 || !all_digits(s@) || dec_val(s@) > u32::MAX,
        },
{
    let n: usize = s.len();
    if n == 0 {
        return None;
    }
    let mut acc: u64 = 0;
    let mut i: usize = 0;
    while i < n
        invariant
            0 <= i <= n,
            n == s@.len(),
            all_digits(s@.take(i as int)),
            acc == dec_val(s@.take(i as int)),
            acc <= u32::MAX,
        decreases n - i,
    {
        let b = s[i];
        if b < 48 || b > 57 {
            proof {
                assert(!is_digit(s@[i as int]));
            }
            return None;
        }
        let d: u64 = (b - 48) as u64;
        let next: u64 = acc * 10 + d;
        proof {
            let pre = s@.take(i as int);
            let post = s@.take(i + 1);
            assert(post.drop_last() =~= pre);
            assert(post.last() == s@[i as int]);
            assert(forall|k: int| 0 <= k < i + 1 ==> post[k] == s@[k]);
        }
        if next > 0xffff_ffffu64 {
            proof {
                if all_digits(s@) {
                    lemma_dec_val_prefix(s@, i + 1);
                }
            }
            return None;
        }
        acc = next;
        i = i + 1;
    }
    proof {
        assert(s@.take(n as int) =~= s@);
    }
    Some(acc as u32)
}

/// Whether an optional numeric argument parses.
pub open spec fn valid_num(o: Option<Vec<u8>>) -> bool {
    match o {
        None => true,
        Some(s) => s@.len() > 0 && all_digits(s@) && dec_val(s@) <= u32::MAX,
    }
}

/// The value of an optional numeric argument, or its default.
pub open spec fn num_or(o: Option<Vec<u8>>, d: int) -> int {
    match o {
        None => d,
        Some(s) => dec_val(s@),
    }
}

/// Assembles the run parameters from the raw command-line values: the three
/// paths and flags pass through, the numeric arguments are parsed with
/// their defaults (block size 16, magnification 2, threads 2), and any
/// malformed number is rejected.
pub fn parameters(
    source: Vec<u8>,
    library: Vec<u8>,
    out_file: Vec<u8>,
    print_timings: bool,
    color_caching: bool,
    verbosity: usize,
    size: Option<Vec<u8>>,
    magnification: Option<Vec<u8>>,
    threads: Option<Vec<u8>>,
) -> (r: Result<(Vec<u8>, Vec<u8>, Vec<u8>, bool, bool, usize, u32, u32, usize), MosaicError>)
    ensures
        r is Ok <==> valid_num(size) && valid_num(magnification) && valid_num(threads),
        r matches Ok(t) ==> t.0@ == source@ && t.1@ == library@ && t.2@ == out_file@ && t.3
            == print_timings && t.4 == color_caching && t.5 == verbosity && t.6 as int == num_or(
            size,
            DEFAULT_PIXEL_GROUP_SIZE as int,
        ) && t.7 as int == num_or(magnification, DEFAULT_MAGNIFICATION as int) && t.8 as int
            == num_or(threads, DEFAULT_THREADS as int),
        r matches Err(e) ==> e == MosaicError::InvalidParameter,
{
    let pixel_group_size: u32 = match &size {
        Some(s) => match parse_u32(s) {
            Some(v) => v,
            None => {
                return Err(MosaicError::InvalidParameter);
            },
        },
        None => DEFAULT_PIXEL_GROUP_SIZE,
    };
    let magnification_factor: u32 = match &magnification {
        Some(s) => match parse_u32(s) {
            Some(v) => v,
            None => {
                return Err(MosaicError::InvalidParameter);
            },
        },
        None => DEFAULT_MAGNIFICATION,
    };
    let thread_count: usize = match &threads {
        Some(s) => match parse_u32(s) {
            Some(v) => v as usize,
            None => {
                return Err(MosaicError::InvalidParameter);
            },
        },
        None => DEFAULT_THREADS,
    };
    Ok(
        (
            source,
            library,
            out_file,
            print_timings,
            color_caching,
            verbosity,
            pixel_group_size,
            magnification_factor,
            thread_count,
        ),
    )
}

} // verus!
