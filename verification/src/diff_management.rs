//! Per-connection difficulty management of the translator's downstream
//! (SV1) side: counting the shares a miner submits, deciding when the
//! difficulty is due for an update, measuring the window of shares that a new
//! hashrate estimate is made from, and turning an SV2 target into the SV1
//! difficulty.
//!
//! The hashrates themselves are floating-point values and are kept by the
//! caller; this module keeps the counters and does the exact arithmetic.
use crate::byte_order::{
    all_zero, be_value, byte_bound, le_value, lemma_be_value_of_reverse, lemma_be_value_zero,
};
use crate::codec::U256;
use crate::error::Error;
use crate::uint256::{u256_div, u256_from_be_slice, u256_gt};
use vstd::prelude::*;

verus! {

/// Whether every byte of `buf` is zero (a target is zero, typically, when the
/// downstream first connects).
pub fn is_zero(buf: &[u8]) -> (r: bool)
    ensures
        r == all_zero(buf@),
{
    let mut i: usize = 0;
    while i < buf.len()
        invariant
            i <= buf@.len(),
            forall|j: int| 0 <= j < i ==> buf@[j] == 0,
        decreases buf@.len() - i,
    {
        if buf[i] != 0 {
            return false;
        }
        i = i + 1;
    }
    true
}

/// The bytes of `v` in reverse order.
pub fn reversed(v: &Vec<u8>) -> (r: Vec<u8>)
    ensures
        r@ == v@.reverse(),
{
    let n = v.len();
    let mut r: Vec<u8> = Vec::new();
    let mut i: usize = 0;
    while i < n
        invariant
            i <= n == v@.len(),
            r@ == Seq::new(i as nat, |j: int| v@[n - 1 - j]),
        decreases n - i,
    {
        r.push(v[n - 1 - i]);
        assert(r@ =~= Seq::new((i + 1) as nat, |j: int| v@[n - 1 - j]));
        i = i + 1;
    }
    assert(r@ =~= v@.reverse());
    r
}

/// The target of difficulty 1 (`0x00000000ffff...ff`), big-endian.
pub open spec fn pdiff_bytes() -> Seq<u8> {
    Seq::new(32, |i: int| if i < 4 { 0u8 } else { 255u8 })
}

/// The target of difficulty 1, big-endian.
pub fn pdiff() -> (r: [u8; 32])
    ensures
        r@ == pdiff_bytes(),
{
    let mut r = [255u8; 32];
    r[0] = 0;
    r[1] = 0;
    r[2] = 0;
    r[3] = 0;
    assert(r@ =~= pdiff_bytes());
    r
}

/// The SV1 difficulty of a target, in the integers: the caller turns it into
/// the floating-point value that `mining.set_difficulty` carries.
#[derive(Debug, Clone, Copy, PartialEq, Eq)]
pub enum TargetDifficulty {
    /// The target is zero, and so is the difficulty.
    Zero,
    /// The target is below the difficulty-1 target; the difficulty is the
    /// quotient of the two, as 32 big-endian bytes.
    Whole([u8; 32]),
    /// The target is at or above the difficulty-1 target; the difficulty is
    /// the reciprocal of the quotient of the two, given as 32 big-endian bytes.
    Reciprocal([u8; 32]),
}

/// A difficulty with its quotient as a number.
pub enum DifficultyValue {
    Zero,
    Whole(nat),
    Reciprocal(nat),
}

impl View for TargetDifficulty {
    type V = DifficultyValue;

    open spec fn view(&self) -> DifficultyValue {
        match self {
            TargetDifficulty::Zero => DifficultyValue::Zero,
            TargetDifficulty::Whole(q) => DifficultyValue::Whole(be_value(q@)),
            TargetDifficulty::Reciprocal(q) => DifficultyValue::Reciprocal(be_value(q@)),
        }
    }
}

/// The difficulty of a little-endian target, or `None` when the target is
/// not zero and not 32 bytes long.
pub open spec fn target_difficulty(target: Seq<u8>) -> Option<DifficultyValue> {
    if all_zero(target) {
        Some(DifficultyValue::Zero)
    } else if target.len() != 32 {
        None
    } else {
        let t = le_value(target);
        let p = be_value(pdiff_bytes());
        if p > t {
            Some(DifficultyValue::Whole(p / t))
        } else {
            Some(DifficultyValue::Reciprocal(t / p))
        }
    }
}

/// The first `i` bytes of the difficulty-1 target: four zeros, then `0xff`s.
proof fn lemma_pdiff_prefix(i: int)
    requires
        0 <= i <= 32,
    ensures
        be_value(pdiff_bytes().take(i)) == (if i <= 4 {
            0
        } else {
            byte_bound((i - 4) as nat) - 1
        }),
    decreases i,
{
    if i > 0 {
        let p = pdiff_bytes();
        lemma_pdiff_prefix(i - 1);
        assert(p.take(i).drop_last() =~= p.take(i - 1));
        assert(p.take(i).last() == p[i - 1]);
        if i > 4 {
            assert(byte_bound((i - 4) as nat) == 256 * byte_bound((i - 5) as nat));
        }
    }
}

/// The difficulty-1 target is the number `2^224 - 1`.
pub proof fn lemma_pdiff_value()
    ensures
        be_value(pdiff_bytes()) == 0xffff_ffff_ffff_ffff_ffff_ffff_ffff_ffff_ffff_ffff_ffff_ffff_ffff_ffffnat,
{
    lemma_pdiff_prefix(32);
    assert(pdiff_bytes().take(32) =~= pdiff_bytes());
    reveal_with_fuel(byte_bound, 29);
}

/// What the difficulty is, in terms of the target's little-endian value `t`
/// and the difficulty-1 target `p = 2^224 - 1`: zero for a zero target;
/// otherwise, for a 32-byte target, `Whole(q)` with `q` the floor of `p / t`
/// when `t < p`, and `Reciprocal(q)` with `q` the floor of `t / p` when
/// `t >= p`; and nothing for other lengths.
pub proof fn lemma_difficulty_quotient(target: Seq<u8>)
    ensures
        ({
            let t = le_value(target);
            let p = 0xffff_ffff_ffff_ffff_ffff_ffff_ffff_ffff_ffff_ffff_ffff_ffff_ffff_ffffnat;
            match target_difficulty(target) {
                Some(DifficultyValue::Zero) => all_zero(target),
                Some(DifficultyValue::Whole(q)) => !all_zero(target) && target.len() == 32 && 0 < t
                    < p && q * t <= p < (q + 1) * t,
                Some(DifficultyValue::Reciprocal(q)) => !all_zero(target) && target.len() == 32 && p
                    <= t && q * p <= t < (q + 1) * p,
                None => !all_zero(target) && target.len() != 32,
            }
        }),
{
    lemma_pdiff_value();
    let t = le_value(target);
    let p = be_value(pdiff_bytes());
    lemma_be_value_of_reverse(target);
    lemma_be_value_zero(target.reverse());
    if !all_zero(target) {
        assert(!all_zero(target.reverse())) by {
            let k = choose|k: int| 0 <= k < target.len() && target[k] != 0;
            assert(target.reverse()[target.len() - 1 - k] == target[k]);
        }
    }
    if !all_zero(target) && target.len() == 32 {
        if p > t {
            let q = p / t;
            assert(q * t <= p < (q + 1) * t) by (nonlinear_arith)
                requires
                    t > 0,
                    q == p / t,
            ;
        } else {
            let q = t / p;
            assert(q * p <= t < (q + 1) * p) by (nonlinear_arith)
                requires
                    p > 0,
                    q == t / p,
            ;
        }
    }
}

/// Converts a target received by the `SetTarget` SV2 message from the
/// upstream into the difficulty for the downstream (SV1) role.
///
/// The target is little-endian. A zero target (of any length) has difficulty
/// zero; any other target must be 32 bytes long.
pub fn difficulty_from_target(target: Vec<u8>) -> (r: Result<TargetDifficulty, Error>)
    ensures
        match target_difficulty(target@) {
            Some(d) => r matches Ok(x) && x@ == d,
            None => r matches Err(Error::Uint256Conversion(_)),
        },
{
    // the target is little-endian, the 256-bit arithmetic big-endian
    let target_be = reversed(&target);
    proof {
        assert forall|i: int| 0 <= i < target@.len() implies #[trigger] target@[i] == target_be@[
            target@.len() - 1 - i] by {}
    }
    if is_zero(target_be.as_slice()) {
        assert(all_zero(target@)) by {
            assert forall|i: int| 0 <= i < target@.len() implies target@[i] == 0 by {
                assert(target@[i] == target_be@[target@.len() - 1 - i]);
            }
        }
        return Ok(TargetDifficulty::Zero);
    }
    assert(!all_zero(target@)) by {
        let k = choose|k: int| 0 <= k < target_be@.len() && target_be@[k] != 0;
        assert(target_be@[k] == target@[target@.len() - 1 - k]);
    }
    let t = match u256_from_be_slice(target_be.as_slice()) {
        Ok(t) => t,
        Err(e) => return Err(Error::Uint256Conversion(e)),
    };
    let p = pdiff();
    proof {
        lemma_be_value_of_reverse(target@);
        lemma_be_value_zero(target_be@);
        lemma_be_value_zero(p@);
        assert(p@[4] == 255u8);
    }
    if u256_gt(&p, &t) {
        Ok(TargetDifficulty::Whole(u256_div(&p, &t)))
    } else {
        Ok(TargetDifficulty::Reciprocal(u256_div(&t, &p)))
    }
}

/// The counters of a downstream connection's difficulty management.
#[derive(Debug, Clone, Copy, PartialEq, Eq)]
pub struct DifficultyCounters {
    /// How many shares a miner submits between two difficulty updates.
    pub miner_num_submits_before_update: u32,
    /// Shares submitted since the last update.
    pub submits_since_last_update: u32,
    /// When the last update happened, in seconds since the Unix epoch; zero
    /// before the first.
    pub timestamp_of_last_update: u64,
}

/// The counters with a new window started at `now`.
pub open spec fn window_restarted(c: DifficultyCounters, now: u64) -> DifficultyCounters {
    DifficultyCounters { submits_since_last_update: 0, timestamp_of_last_update: now, ..c }
}

/// The counters after one more share.
pub open spec fn share_saved(c: DifficultyCounters) -> DifficultyCounters {
    DifficultyCounters { submits_since_last_update: (c.submits_since_last_update + 1) as u32, ..c }
}

/// Enough shares have come in for a difficulty update.
pub open spec fn update_due(c: DifficultyCounters) -> bool {
    c.submits_since_last_update >= c.miner_num_submits_before_update
}

/// The counters after `k` more shares.
pub open spec fn shares_saved(c: DifficultyCounters, k: nat) -> DifficultyCounters
    decreases k,
{
    if k == 0 {
        c
    } else {
        share_saved(shares_saved(c, (k - 1) as nat))
    }
}

/// After a window starts at `now`, the counter holds the number of shares
/// saved since, and an update is due exactly when that number has reached the
/// configured count; the window's start and the configured count stay.
pub proof fn lemma_update_due_after_shares(c: DifficultyCounters, now: u64, k: nat)
    requires
        k <= u32::MAX,
    ensures
        shares_saved(window_restarted(c, now), k).submits_since_last_update == k,
        shares_saved(window_restarted(c, now), k).timestamp_of_last_update == now,
        shares_saved(window_restarted(c, now), k).miner_num_submits_before_update
            == c.miner_num_submits_before_update,
        update_due(shares_saved(window_restarted(c, now), k)) <==> k
            >= c.miner_num_submits_before_update,
    decreases k,
{
    if k > 0 {
        lemma_update_due_after_shares(c, now, (k - 1) as nat);
    }
}

/// The window of shares that a new hashrate estimate is made from.
#[derive(Debug, Clone, Copy, PartialEq, Eq)]
pub struct HashrateWindow {
    /// Shares submitted in the window.
    pub submits: u32,
    /// Length of the window in seconds.
    pub delta_time: u64,
    /// The target the shares were mined on.
    pub target: U256,
}

impl DifficultyCounters {
    /// Starts the first window at `timestamp_secs` with no shares counted.
    /// Meant to be called once for the lifetime of a connection: later
    /// windows are started by `update_miner_hashrate`.
    pub fn init_difficulty_management(&mut self, timestamp_secs: u64)
        ensures
            *final(self) == window_restarted(*old(self), timestamp_secs),
    {
        self.timestamp_of_last_update = timestamp_secs;
        self.submits_since_last_update = 0;
    }

    /// Counts one more share since the last difficulty update.
    pub fn save_share(&mut self)
        requires
            old(self).submits_since_last_update < u32::MAX,
        ensures
            *final(self) == share_saved(*old(self)),
    {
        self.submits_since_last_update = self.submits_since_last_update + 1;
    }

    /// Whether enough shares have been submitted, as configured, for the
    /// difficulty to be updated.
    pub fn is_update_due(&self) -> (r: bool)
        ensures
            r == update_due(*self),
    {
        self.submits_since_last_update >= self.miner_num_submits_before_update
    }

    /// Closes the current window at `timestamp_secs` and starts the next.
    ///
    /// Before the first window (a zero timestamp) the window is only started
    /// and nothing is measured. Otherwise the miner's target must be 32
    /// bytes long; if it is not, nothing changes. If it is, the shares and
    /// the elapsed time of the window are handed back with the target.
    pub fn update_miner_hashrate(&mut self, timestamp_secs: u64, miner_target: &[u8]) -> (r: Result<
        Option<HashrateWindow>,
        Error,
    >)
        requires
            old(self).timestamp_of_last_update == 0 || old(self).timestamp_of_last_update
                <= timestamp_secs,
        ensures
            old(self).timestamp_of_last_update == 0 ==> r == Ok::<Option<HashrateWindow>, Error>(
                None,
            ) && *final(self) == window_restarted(*old(self), timestamp_secs),
            old(self).timestamp_of_last_update != 0 && miner_target@.len() != 32 ==> r == Err::<
                Option<HashrateWindow>,
                Error,
            >(Error::InvalidU256(miner_target@.len() as usize)) && *final(self) == *old(self),
            old(self).timestamp_of_last_update != 0 && miner_target@.len() == 32 ==> (r matches Ok(
                Some(w),
            ) && w.submits == old(self).submits_since_last_update && w.delta_time
                == timestamp_secs - old(self).timestamp_of_last_update && w.target.bytes@
                == miner_target@) && *final(self) == window_restarted(*old(self), timestamp_secs),
    {
        if self.timestamp_of_last_update == 0 {
            self.timestamp_of_last_update = timestamp_secs;
            self.submits_since_last_update = 0;
            return Ok(None);
        }
        let delta_time = timestamp_secs - self.timestamp_of_last_update;
        let target = match U256::from_slice(miner_target) {
            Ok(t) => t,
            Err(e) => return Err(e),
        };
        let submits = self.submits_since_last_update;
        self.timestamp_of_last_update = timestamp_secs;
        self.submits_since_last_update = 0;
        Ok(Some(HashrateWindow { submits, delta_time, target }))
    }
}

} // verus!
