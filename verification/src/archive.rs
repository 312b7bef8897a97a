//! Package archive preparation: compression, content hashing and the
//! length prefix.
//!
//! A package's file tree is archived (an I/O concern handled outside
//! the library), compressed, and hashed; the metadata records the hash
//! of exactly the compressed bytes. The compressed archive starts with
//! the uncompressed size as a little-endian 32-bit prefix.

use vstd::prelude::*;

use sha3::Digest;

use crate::package::Package;
use crate::package::opt_reqs_equiv;
use crate::package::strings_equiv;

verus! {

/// The bytes that LZ4 compression with a prepended size produces for
/// the given input; a function of the input alone.
pub uninterp spec fn lz4_compressed(b: Seq<u8>) -> Seq<u8>;

/// The result of LZ4 decompression with a prepended size: the original
/// bytes, or nothing when the input is not a valid archive; a function
/// of the input alone.
pub uninterp spec fn lz4_decompressed(b: Seq<u8>) -> Option<Seq<u8>>;

/// The lowercase hexadecimal SHA3-256 digest of the given bytes; a
/// function of the input alone.
pub uninterp spec fn sha3_256_hex(b: Seq<u8>) -> Seq<char>;

/// The value of four bytes read as a little-endian 32-bit integer.
pub open spec fn le_u32_value(b0: u8, b1: u8, b2: u8, b3: u8) -> int {
    b0 + 256 * b1 + 65536 * b2 + 16777216 * b3
}

/// Window width for the scan over `0xFF` runs. LZ4 length fields add
/// 255 per extension byte to a 32-bit accumulator, so overflow needs a
/// run of more than 16843008 consecutive `0xFF` bytes; every run
/// shorter than this window keeps the accumulator below 2^32.
pub const FF_RUN_LIMIT: usize = 16000000;

/// Whether the window of [`FF_RUN_LIMIT`] bytes starting at `i` holds a
/// byte other than `0xFF`.
pub open spec fn ff_window_has_stop(b: Seq<u8>, i: int) -> bool {
    exists|j: int| i <= j < i + FF_RUN_LIMIT && b[j] != 255
}

/// Whether no [`FF_RUN_LIMIT`]-byte window of `b` is all `0xFF`. The
/// length fields of such a buffer fit LZ4's 32-bit accumulator, so
/// decompression cannot overflow while reading them. No archive of a
/// package whose size fits the 32-bit length prefix needs a longer run.
pub open spec fn ff_run_bounded(b: Seq<u8>) -> bool {
    forall|i: int| 0 <= i && i + FF_RUN_LIMIT <= b.len() ==> #[trigger] ff_window_has_stop(b, i)
}

/// A buffer shorter than the window is trivially bounded.
pub proof fn lemma_short_buffer_ff_bounded(b: Seq<u8>)
    requires
        b.len() < FF_RUN_LIMIT,
    ensures
        ff_run_bounded(b),
{
}

/// Decide whether every [`FF_RUN_LIMIT`]-byte window of `b` holds a
/// byte other than `0xFF`.
fn ff_runs_within_limit(b: &Vec<u8>) -> (ok: bool)
    ensures
        ok == ff_run_bounded(b@),
{
    let mut i: usize = 0;
    let mut run: usize = 0;
    while i < b.len()
        invariant
            0 <= i <= b@.len(),
            run <= i,
            run < FF_RUN_LIMIT,
            forall|j: int| i - run <= j < i ==> b@[j] == 255,
            run == i || b@[i - run - 1] != 255,
            forall|w: int|
                0 <= w && w + FF_RUN_LIMIT <= i ==> #[trigger] ff_window_has_stop(b@, w),
        decreases b@.len() - i,
    {
        if b[i] == 255 {
            run = run + 1;
            if run >= FF_RUN_LIMIT {
                proof {
                    let w0 = i + 1 - FF_RUN_LIMIT;
                    assert(forall|j: int| w0 <= j < i + 1 ==> b@[j] == 255);
                    if ff_run_bounded(b@) {
                        assert(ff_window_has_stop(b@, w0));
                        let j = choose|j: int| w0 <= j < w0 + FF_RUN_LIMIT && b@[j] != 255;
                        assert(false);
                    }
                }
                return false;
            }
        } else {
            run = 0;
        }
        proof {
            assert(forall|j: int| i + 1 - run <= j < i + 1 ==> b@[j] == 255);
            assert(run == i + 1 || b@[i - run] != 255);
            assert forall|w: int|
                0 <= w && w + FF_RUN_LIMIT <= i + 1 implies #[trigger] ff_window_has_stop(
                b@,
                w,
            ) by {
                if w + FF_RUN_LIMIT <= i {
                    assert(ff_window_has_stop(b@, w));
                } else {
                    assert(w == i + 1 - FF_RUN_LIMIT);
                    if b@[i as int] != 255 {
                        assert(w <= i < w + FF_RUN_LIMIT && b@[i as int] != 255);
                    } else {
                        let j0 = i - run;
                        assert(run < i + 1);
                        assert(b@[j0] != 255);
                        assert(w <= j0 < w + FF_RUN_LIMIT);
                    }
                }
            }
        }
        i = i + 1;
    }
    proof {
        assert forall|w: int|
            0 <= w && w + FF_RUN_LIMIT <= b@.len() implies #[trigger] ff_window_has_stop(
            b@,
            w,
        ) by {
            assert(ff_window_has_stop(b@, w));
        }
    }
    true
}

/// Relies on `lz4_flex::compress_prepend_size`: deterministic
/// compression that prepends the input length as a little-endian u32,
/// whose output `lz4_flex::decompress_size_prepended` turns back into
/// the input, and whose output length never exceeds the crate's
/// documented maximum of `16 + 4 + len * 110 / 100` plus the prefix.
#[verifier::external_body]
fn lz4_compress(bytes: &Vec<u8>) -> (r: Vec<u8>)
    requires
        bytes@.len() <= u32::MAX,
    ensures
        r@ == lz4_compressed(bytes@),
        r@.len() >= 4,
        r@.len() <= 24 + bytes@.len() * 110 / 100,
        le_u32_value(r@[0], r@[1], r@[2], r@[3]) == bytes@.len(),
        lz4_decompressed(r@) == Option::Some(bytes@),
{
    lz4_flex::compress_prepend_size(bytes.as_slice())
}

/// Relies on `lz4_flex::decompress_size_prepended`: deterministic
/// decompression of a size-prepended LZ4 archive. Its length fields
/// accumulate 255 per `0xFF` extension byte into a 32-bit counter, so
/// an adversarial run of more than 16843008 consecutive `0xFF` bytes
/// could overflow it (an abort in builds with overflow checks on); the
/// precondition excludes every such input, and callers scan for it.
#[verifier::external_body]
fn lz4_decompress(bytes: &Vec<u8>) -> (r: Option<Vec<u8>>)
    requires
        ff_run_bounded(bytes@),
    ensures
        match r {
            Option::Some(v) => lz4_decompressed(bytes@) == Option::Some(v@),
            Option::None => lz4_decompressed(bytes@) is None,
        },
{
    match lz4_flex::decompress_size_prepended(bytes.as_slice()) {
        Ok(v) => Option::Some(v),
        Err(_) => Option::None,
    }
}

/// Relies on `sha3::Sha3_256` and its lowercase hexadecimal formatting:
/// a 64-digit digest determined by the input bytes alone.
#[verifier::external_body]
fn sha3_256_hex_digest(bytes: &Vec<u8>) -> (r: String)
    ensures
        r@ == sha3_256_hex(bytes@),
        r@.len() == 64,
{
    let digest = sha3::Sha3_256::digest(bytes.as_slice());
    format!("{:x}", digest)
}

/// Read the little-endian 32-bit length prefix of an archive.
pub fn read_le_u32(b: &Vec<u8>) -> (r: u32)
    requires
        b@.len() >= 4,
    ensures
        r == le_u32_value(b@[0], b@[1], b@[2], b@[3]),
{
    (b[0] as u32) + 256 * (b[1] as u32) + 65536 * (b[2] as u32) + 16777216 * (b[3] as u32)
}

/// Compress a package's archive bytes, record the content hash of the
/// compressed archive in the package metadata, and report the
/// uncompressed size as read back from the archive's length prefix.
///
/// The hash covers exactly the bytes of the compressed archive, not the
/// uncompressed contents; every other metadata field is kept unchanged.
pub fn prepare_package_archive(tar_bytes: &Vec<u8>, meta: &Package) -> (result: (
    Vec<u8>,
    Package,
    u32,
))
    requires
        tar_bytes@.len() <= u32::MAX,
    ensures
        result.0@ == lz4_compressed(tar_bytes@),
        lz4_decompressed(result.0@) == Option::Some(tar_bytes@),
        result.0@.len() >= 4,
        result.0@.len() <= 24 + tar_bytes@.len() * 110 / 100,
        tar_bytes@.len() < 14000000 ==> ff_run_bounded(result.0@),
        le_u32_value(result.0@[0], result.0@[1], result.0@[2], result.0@[3]) == tar_bytes@.len(),
        result.1.arch@ == meta.arch@,
        result.1.name@ == meta.name@,
        result.1.description@ == meta.description@,
        result.1.version == meta.version,
        opt_reqs_equiv(result.1.dependencies, meta.dependencies),
        opt_reqs_equiv(result.1.conflicts, meta.conflicts),
        strings_equiv(result.1.files@, meta.files@),
        match result.1.keccak {
            Option::Some(h) => h@ == sha3_256_hex(result.0@),
            Option::None => false,
        },
        result.2 == tar_bytes@.len(),
{
    let archive = lz4_compress(tar_bytes);
    proof {
        if tar_bytes@.len() < 14000000 {
            assert(tar_bytes@.len() * 110 <= 13999999int * 110) by (nonlinear_arith)
                requires tar_bytes@.len() < 14000000;
            assert(tar_bytes@.len() * 110 / 100 <= 13999999int * 110 / 100) by (nonlinear_arith)
                requires tar_bytes@.len() * 110 <= 13999999int * 110;
            assert(archive@.len() < FF_RUN_LIMIT);
            lemma_short_buffer_ff_bounded(archive@);
        }
    }
    let hash = sha3_256_hex_digest(&archive);
    let mut out = meta.clone();
    out.keccak = Option::Some(hash);
    let size = read_le_u32(&archive);
    (archive, out, size)
}

/// Decompress a package archive and return its contents together with
/// the uncompressed size announced by the length prefix; nothing is
/// returned when the bytes are too short, hold a run of `0xFF` bytes
/// longer than any valid length field needs, do not decompress, or
/// announce a size other than the contents' length.
pub fn unpack_package_archive(bytes: &Vec<u8>) -> (r: Option<(Vec<u8>, u32)>)
    ensures
        match r {
            Option::Some(pair) => {
                &&& bytes@.len() >= 4
                &&& ff_run_bounded(bytes@)
                &&& lz4_decompressed(bytes@) == Option::Some(pair.0@)
                &&& pair.1 == le_u32_value(bytes@[0], bytes@[1], bytes@[2], bytes@[3])
                &&& pair.0@.len() == pair.1
            },
            Option::None => bytes@.len() < 4 || !ff_run_bounded(bytes@) || (match lz4_decompressed(
                bytes@,
            ) {
                Option::Some(v) => v.len() != le_u32_value(
                    bytes@[0],
                    bytes@[1],
                    bytes@[2],
                    bytes@[3],
                ),
                Option::None => true,
            }),
        },
{
    if bytes.len() < 4 {
        return Option::None;
    }
    if !ff_runs_within_limit(bytes) {
        return Option::None;
    }
    let size = read_le_u32(bytes);
    match lz4_decompress(bytes) {
        Option::Some(v) => {
            if v.len() == size as usize {
                Option::Some((v, size))
            } else {
                Option::None
            }
        },
        Option::None => Option::None,
    }
}

} // verus!
