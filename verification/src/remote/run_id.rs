//! A short identifier for this run of the game process.
//!
//! Entity ids do not survive a restart, and neither does anything else an agent holds between
//! calls. Every tool result carries this value so a restart is visible without asking for it.

use vstd::prelude::*;

verus! {

/// The FNV-1a offset basis.
pub const FNV_OFFSET: u64 = 0xcbf2_9ce4_8422_2325;

/// The FNV-1a prime.
pub const FNV_PRIME: u64 = 0x0000_0100_0000_01b3;

/// The 64-bit FNV-1a hash of `bytes`.
pub open spec fn fnv1a(bytes: Seq<u8>) -> u64
    decreases bytes.len(),
{
    if bytes.len() == 0 {
        FNV_OFFSET
    } else {
        (fnv1a(bytes.drop_last()) ^ (bytes.last() as u64)).wrapping_mul(FNV_PRIME)
    }
}

/// The letter for base-26 digit `i` (0, 1 or 2) of `hash`: 16 bits apart, each taken mod 26.
pub open spec fn letter(hash: u64, i: u64) -> char {
    ((97 + (hash >> (16 * i)) % 26) as u8) as char
}

/// FNV-1a, then three base-26 digits as lowercase letters.
///
/// 17576 possible values, so two successive runs collide about once in 17576: a missed warning,
/// never a false one.
pub fn three_letters(bytes: &[u8]) -> (out: String)
    ensures
        out@ == seq![letter(fnv1a(bytes@), 0), letter(fnv1a(bytes@), 1), letter(fnv1a(bytes@), 2)],
        out@.len() == 3,
        forall|i: int| 0 <= i < 3 ==> 'a' <= #[trigger] out@[i] <= 'z',
{
    let mut hash: u64 = FNV_OFFSET;
    let mut i: usize = 0;
    while i < bytes.len()
        invariant
            i <= bytes@.len(),
            hash == fnv1a(bytes@.take(i as int)),
        decreases bytes.len() - i,
    {
        proof {
            assert(bytes@.take(i + 1).drop_last() =~= bytes@.take(i as int));
        }
        hash = (hash ^ (bytes[i] as u64)).wrapping_mul(FNV_PRIME);
        i = i + 1;
    }
    proof {
        assert(bytes@.take(bytes.len() as int) =~= bytes@);
    }
    let mut out = String::new();
    let mut d: u64 = 0;
    while d < 3
        invariant
            d <= 3,
            hash == fnv1a(bytes@),
            out@.len() == d,
            forall|j: int| 0 <= j < d ==> out@[j] == letter(hash, j as u64),
        decreases 3 - d,
    {
        let digit = ((hash >> (16 * d)) % 26) as u8;
        out.push((97u8 + digit) as char);
        d = d + 1;
    }
    proof {
        assert(out@ =~= seq![letter(hash, 0), letter(hash, 1), letter(hash, 2)]);
        assert forall|i: int| 0 <= i < 3 implies 'a' <= #[trigger] out@[i] <= 'z' by {
            let x = (hash >> (16 * (i as u64))) % 26;
            assert(x < 26);
        }
    }
    out
}

/// Byte `k` of `x`, least significant first.
pub open spec fn le_byte(x: u64, k: int) -> u8 {
    ((x >> (8 * k) as u64) & 0xff) as u8
}

/// The bytes the run id hashes: the process id, then the start time in nanoseconds, each as
/// eight little-endian bytes. The time is what makes two runs differ when the pid repeats.
pub fn run_source(pid: u32, started_nanos: u64) -> (out: Vec<u8>)
    ensures
        out@.len() == 16,
        forall|k: int| 0 <= k < 8 ==> #[trigger] out@[k] == le_byte(pid as u64, k),
        forall|k: int| 8 <= k < 16 ==> #[trigger] out@[k] == le_byte(started_nanos, k - 8),
{
    let mut out: Vec<u8> = Vec::new();
    let wide = pid as u64;
    let mut k: u64 = 0;
    while k < 8
        invariant
            k <= 8,
            out@.len() == k,
            wide == pid as u64,
            forall|j: int| 0 <= j < k ==> #[trigger] out@[j] == le_byte(pid as u64, j),
        decreases 8 - k,
    {
        out.push(((wide >> (8 * k)) & 0xff) as u8);
        k = k + 1;
    }
    let mut k: u64 = 0;
    while k < 8
        invariant
            k <= 8,
            out@.len() == 8 + k,
            forall|j: int| 0 <= j < 8 ==> #[trigger] out@[j] == le_byte(pid as u64, j),
            forall|j: int| 8 <= j < 8 + k ==> #[trigger] out@[j] == le_byte(started_nanos, j - 8),
        decreases 8 - k,
    {
        out.push(((started_nanos >> (8 * k)) & 0xff) as u8);
        k = k + 1;
    }
    out
}

/// The run id for a process with this pid, started at this many nanoseconds past the epoch.
pub fn run_id_for(pid: u32, started_nanos: u64) -> (out: String)
    ensures
        out@.len() == 3,
        exists|source: Seq<u8>| source == run_source_view(pid, started_nanos) && out@ == seq![
            letter(fnv1a(source), 0),
            letter(fnv1a(source), 1),
            letter(fnv1a(source), 2),
        ],
{
    let source = run_source(pid, started_nanos);
    proof {
        assert(source@ =~= run_source_view(pid, started_nanos));
    }
    three_letters(source.as_slice())
}

/// The bytes [`run_source`] gives, as a sequence.
pub open spec fn run_source_view(pid: u32, started_nanos: u64) -> Seq<u8> {
    Seq::new(16, |k: int| if k < 8 { le_byte(pid as u64, k) } else { le_byte(started_nanos, k - 8) })
}

} // verus!
