//! Where work is done, which device to use, and what to prepare on it before the first
//! transform.
use vstd::prelude::*;
use vstd::arithmetic::mul::*;
use vstd::arithmetic::power::*;
use crate::goldilocks;

verus! {

/// Where the work is done: a result from the host, or a request for the device.
#[derive(Clone, Debug)]
pub enum Step<T, R> {
    /// Done on the host.
    Host(T),
    /// To be done on the device.
    Device(R),
}

/// Largest log size that is prepared on first use.
pub const COMMON_LG: usize = 24;

/// Smallest log size for which twiddle factors are prepared on first use.
pub const SMALLEST_LG: usize = 2;

/// One piece of preparation that the device has to carry out.
#[derive(Copy, Clone, Debug, PartialEq, Eq, Structural)]
pub enum InitAction {
    /// Compute the powers of `coset_gen` for transforms of up to `2^lg_n` elements.
    Coset { lg_n: usize, coset_gen: u64 },
    /// Compute the twiddle factors for transforms of `2^lg_n` elements.
    Twiddle { lg_n: usize },
}

/// What has been prepared on the device.
#[derive(Clone, Debug)]
pub struct GpuState {
    /// The common sizes are prepared.
    initialized: bool,
    /// Largest log size that the coset powers cover.
    coset_lg: usize,
    /// Log sizes with twiddle factors beyond the common ones.
    more_twiddles: Vec<usize>,
}

/// Preparation of the twiddle factors from `SMALLEST_LG` up to, but not including, `end`.
pub open spec fn twiddle_range(end: nat) -> Seq<InitAction>
    decreases end,
{
    if end <= SMALLEST_LG {
        Seq::empty()
    } else {
        twiddle_range((end - 1) as nat).push(InitAction::Twiddle { lg_n: (end - 1) as usize })
    }
}

/// Preparation of the coset powers for log size `lg_n` with the generator that
/// low-degree extensions use.
pub open spec fn coset_action(lg_n: usize) -> InitAction {
    InitAction::Coset { lg_n, coset_gen: goldilocks::MULTIPLICATIVE_GROUP_GENERATOR }
}

/// What is prepared on first use: the coset powers for the largest common size, which
/// cover all smaller ones, then the twiddle factors of all common sizes.
pub open spec fn common_actions() -> Seq<InitAction> {
    seq![coset_action(COMMON_LG)] + twiddle_range((COMMON_LG + 1) as nat)
}

impl GpuState {
    /// The common sizes are prepared.
    pub closed spec fn spec_initialized(&self) -> bool {
        self.initialized
    }

    /// Twiddle factors for log size `lg_n` are prepared.
    pub closed spec fn has_twiddles(&self, lg_n: usize) -> bool {
        self.initialized && (SMALLEST_LG <= lg_n <= COMMON_LG || self.more_twiddles@.contains(
            lg_n,
        ))
    }

    /// Coset powers for log size `lg_n` are prepared.
    pub closed spec fn has_coset(&self, lg_n: usize) -> bool {
        self.initialized && lg_n <= self.coset_lg
    }

    /// Preparation that a first use still needs.
    pub open spec fn missing_common(&self) -> Seq<InitAction> {
        if self.spec_initialized() {
            Seq::empty()
        } else {
            common_actions()
        }
    }

    /// Preparation that a transform with twiddle factors for log size `lg_n` still needs.
    pub open spec fn missing_twiddles(&self, lg_n: usize) -> Seq<InitAction> {
        self.missing_common() + (if self.has_twiddles(lg_n) || (!self.spec_initialized()
            && SMALLEST_LG <= lg_n <= COMMON_LG) {
            Seq::empty()
        } else {
            seq![InitAction::Twiddle { lg_n }]
        })
    }

    /// Preparation that a transform on the coset for log size `lg_n` still needs.
    pub open spec fn missing_coset(&self, lg_n: usize) -> Seq<InitAction> {
        self.missing_common() + (if self.has_coset(lg_n) || (!self.spec_initialized() && lg_n
            <= COMMON_LG) {
            Seq::empty()
        } else {
            seq![coset_action(lg_n)]
        })
    }

    /// Preparation that a low-degree extension to log size `lg_n` still needs: twiddle factors
    /// and coset powers.
    pub open spec fn missing_lde(&self, lg_n: usize) -> Seq<InitAction> {
        self.missing_twiddles(lg_n) + (if self.has_coset(lg_n) || (!self.spec_initialized() && lg_n
            <= COMMON_LG) {
            Seq::empty()
        } else {
            seq![coset_action(lg_n)]
        })
    }

    /// The action prepares something that is not there yet.
    pub open spec fn is_new(&self, action: InitAction) -> bool {
        match action {
            InitAction::Coset { lg_n, coset_gen } => !self.has_coset(lg_n),
            InitAction::Twiddle { lg_n } => !self.has_twiddles(lg_n),
        }
    }

    /// `self` has what `before` has, the common sizes, and what is asked for besides: the
    /// twiddle factors for one log size, and the coset powers up to one log size.
    pub open spec fn extends(
        &self,
        before: &Self,
        twiddles: Option<usize>,
        coset: Option<usize>,
    ) -> bool {
        &&& self.spec_initialized()
        &&& forall|lg: usize|
            #[trigger] self.has_twiddles(lg) <==> {
                ||| before.has_twiddles(lg)
                ||| !before.spec_initialized() && SMALLEST_LG <= lg <= COMMON_LG
                ||| twiddles == Some(lg)
            }
        &&& forall|lg: usize|
            #[trigger] self.has_coset(lg) <==> {
                ||| before.has_coset(lg)
                ||| !before.spec_initialized() && lg <= COMMON_LG
                ||| coset is Some && lg <= coset->0
            }
    }

    /// A device on which nothing is prepared.
    pub fn new() -> (r: Self)
        ensures
            !r.spec_initialized(),
            forall|lg: usize| !#[trigger] r.has_twiddles(lg),
            forall|lg: usize| !#[trigger] r.has_coset(lg),
    {
        GpuState { initialized: false, coset_lg: 0, more_twiddles: Vec::new() }
    }

    /// On first use, what to prepare for the common sizes; nothing afterwards.
    pub fn ensure_gpu_initialized(&mut self) -> (r: Vec<InitAction>)
        ensures
            r@ == old(self).missing_common(),
            final(self).extends(old(self), None, None),
            old(self).spec_initialized() ==> *final(self) == *old(self),
    {
        self.prepare_common()
    }

    /// `ensure_gpu_initialized`, with what happens to the fields.
    fn prepare_common(&mut self) -> (r: Vec<InitAction>)
        ensures
            r@ == old(self).missing_common(),
            final(self).initialized,
            old(self).initialized ==> *final(self) == *old(self),
            !old(self).initialized ==> final(self).coset_lg == COMMON_LG
                && final(self).more_twiddles@.len() == 0,
    {
        let mut actions: Vec<InitAction> = Vec::new();
        if !self.initialized {
            let coset_gen: u64 = goldilocks::MULTIPLICATIVE_GROUP_GENERATOR;
            actions.push(InitAction::Coset { lg_n: COMMON_LG, coset_gen });
            let mut lg_n: usize = SMALLEST_LG;
            while lg_n <= COMMON_LG
                invariant
                    SMALLEST_LG <= lg_n <= COMMON_LG + 1,
                    actions@ == seq![coset_action(COMMON_LG)] + twiddle_range(lg_n as nat),
                decreases COMMON_LG + 1 - lg_n,
            {
                actions.push(InitAction::Twiddle { lg_n });
                lg_n = lg_n + 1;
                assert(actions@ =~= seq![coset_action(COMMON_LG)] + twiddle_range(lg_n as nat));
            }
            self.initialized = true;
            self.coset_lg = COMMON_LG;
            self.more_twiddles = Vec::new();
        }
        actions
    }

    /// What to prepare so that the device has the twiddle factors for log size `lg_n`.
    pub fn ensure_twiddle_factors(&mut self, lg_n: usize) -> (r: Vec<InitAction>)
        ensures
            r@ == old(self).missing_twiddles(lg_n),
            final(self).missing_twiddles(lg_n).len() == 0,
            final(self).extends(old(self), Some(lg_n), None),
    {
        let mut actions = self.prepare_common();
        let known = self.knows_twiddles(lg_n);
        if !known {
            let ghost before = self.more_twiddles@;
            actions.push(InitAction::Twiddle { lg_n });
            self.more_twiddles.push(lg_n);
            proof {
                assert(self.more_twiddles@[before.len() as int] == lg_n);
                assert forall|lg: usize| self.more_twiddles@.contains(lg) implies lg == lg_n
                    || before.contains(lg) by {
                    let k = choose|k: int| 0 <= k < before.len() + 1 && self.more_twiddles@[k] == lg;
                    if k < before.len() {
                        assert(before[k] == lg);
                    }
                }
                assert forall|lg: usize| before.contains(lg) implies self.more_twiddles@.contains(
                    lg,
                ) by {
                    let k = choose|k: int| 0 <= k < before.len() && before[k] == lg;
                    assert(self.more_twiddles@[k] == lg);
                }
            }
        }
        actions
    }

    /// What to prepare so that the device has the coset powers for log size `lg_n`.
    pub fn ensure_coset_factors(&mut self, lg_n: usize) -> (r: Vec<InitAction>)
        ensures
            r@ == old(self).missing_coset(lg_n),
            final(self).missing_coset(lg_n).len() == 0,
            final(self).extends(old(self), None, Some(lg_n)),
    {
        let mut actions = self.prepare_common();
        if lg_n > self.coset_lg {
            let coset_gen: u64 = goldilocks::MULTIPLICATIVE_GROUP_GENERATOR;
            actions.push(InitAction::Coset { lg_n, coset_gen });
            self.coset_lg = lg_n;
        }
        actions
    }

    /// Whether twiddle factors for log size `lg_n` are prepared.
    fn knows_twiddles(&self, lg_n: usize) -> (r: bool)
        requires
            self.initialized,
        ensures
            r == self.has_twiddles(lg_n),
    {
        if SMALLEST_LG <= lg_n && lg_n <= COMMON_LG {
            return true;
        }
        let mut i: usize = 0;
        while i < self.more_twiddles.len()
            invariant
                self.initialized,
                i <= self.more_twiddles@.len(),
                forall|k: int| 0 <= k < i ==> self.more_twiddles@[k] != lg_n,
            decreases self.more_twiddles@.len() - i,
        {
            if self.more_twiddles[i] == lg_n {
                assert(self.more_twiddles@[i as int] == lg_n);
                return true;
            }
            i = i + 1;
        }
        false
    }
}

/// Nothing is prepared that the device has already.
pub proof fn lemma_prepared_once(state: GpuState, lg_n: usize, k: int)
    ensures
        0 <= k < state.missing_twiddles(lg_n).len() ==> state.is_new(
            state.missing_twiddles(lg_n)[k],
        ),
        0 <= k < state.missing_coset(lg_n).len() ==> state.is_new(state.missing_coset(lg_n)[k]),
{
}

/// The byte is a decimal digit.
pub open spec fn is_digit(b: u8) -> bool {
    0x30 <= b <= 0x39
}

/// The number that a sequence of decimal digits is written for.
pub open spec fn decimal(s: Seq<u8>) -> nat
    decreases s.len(),
{
    if s.len() == 0 {
        0
    } else {
        10 * decimal(s.drop_last()) + (s.last() - 0x30) as nat
    }
}

/// At least one byte, and decimal digits only.
pub open spec fn is_decimal(s: Seq<u8>) -> bool {
    s.len() > 0 && forall|i: int| 0 <= i < s.len() ==> is_digit(#[trigger] s[i])
}

/// `s` without a leading sign.
pub open spec fn unsigned_part(s: Seq<u8>) -> Seq<u8> {
    if s.len() > 0 && (s[0] == 0x2B || s[0] == 0x2D) {
        s.drop_first()
    } else {
        s
    }
}

/// The number that `s` is written for, where `s` is digits behind at most one sign.
pub open spec fn signed_decimal(s: Seq<u8>) -> int {
    if s.len() > 0 && s[0] == 0x2D {
        -(decimal(unsigned_part(s)) as int)
    } else {
        decimal(unsigned_part(s)) as int
    }
}

/// `s` is the text of an `i32`: an optional sign, then digits.
pub open spec fn is_i32_text(s: Seq<u8>) -> bool {
    is_decimal(unsigned_part(s)) && i32::MIN <= signed_decimal(s) <= i32::MAX
}

/// `s` is the text of a `u64`: an optional plus sign, then digits.
pub open spec fn is_u64_text(s: Seq<u8>) -> bool {
    is_decimal(unsigned_part(s)) && s[0] != 0x2D && signed_decimal(s) <= u64::MAX
}

/// More digits do not make a number smaller.
proof fn lemma_decimal_prefix(s: Seq<u8>, k: nat)
    requires
        k <= s.len(),
        is_decimal(s),
    ensures
        decimal(s.take(k as int)) <= decimal(s),
    decreases s.len(),
{
    if k < s.len() {
        if s.len() > 1 {
            lemma_decimal_prefix(s.drop_last(), k);
            assert(s.drop_last().take(k as int) =~= s.take(k as int));
        } else {
            assert(s.take(k as int) =~= Seq::empty());
        }
    } else {
        assert(s.take(k as int) =~= s);
    }
}

/// Reads the digits from `start` on, if they are digits and their number is at most
/// `limit`.
fn read_decimal(s: &[u8], start: usize, limit: u64) -> (r: Option<u64>)
    requires
        start <= s@.len(),
    ensures
        ({
            let digits = s@.skip(start as int);
            match r {
                Some(n) => is_decimal(digits) && n == decimal(digits) && n <= limit,
                None => !(is_decimal(digits) && decimal(digits) <= limit),
            }
        }),
{
    let ghost digits = s@.skip(start as int);
    if start == s.len() {
        return None;
    }
    let mut n: u64 = 0;
    let mut i: usize = start;
    while i < s.len()
        invariant
            start <= i <= s@.len(),
            digits == s@.skip(start as int),
            n <= limit,
            n == decimal(digits.take(i - start)),
            forall|k: int| 0 <= k < i - start ==> is_digit(#[trigger] digits[k]),
        decreases s@.len() - i,
    {
        let b: u8 = s[i];
        assert(digits[i - start] == b);
        if b < 0x30 || b > 0x39 {
            return None;
        }
        let next: u128 = 10 * (n as u128) + (b - 0x30) as u128;
        proof {
            assert(digits.take(i + 1 - start).drop_last() =~= digits.take(i - start));
        }
        if next > limit as u128 {
            proof {
                if is_decimal(digits) {
                    lemma_decimal_prefix(digits, (i + 1 - start) as nat);
                }
            }
            return None;
        }
        n = next as u64;
        i = i + 1;
    }
    proof {
        assert(digits.take(i - start) =~= digits);
    }
    Some(n)
}

/// The number of the device for transforms: the value of the setting where that is the
/// text of an `i32`, zero otherwise.
pub fn gpu_id(setting: Option<&[u8]>) -> (r: i32)
    ensures
        r == (match setting {
            Some(s) => if is_i32_text(s@) {
                signed_decimal(s@)
            } else {
                0
            },
            None => 0,
        }),
{
    match setting {
        Some(s) => {
            if s.len() > 0 && s[0] == 0x2D {
                assert(s@.skip(1) =~= s@.drop_first());
                match read_decimal(s, 1, 0x8000_0000) {
                    Some(n) => (-(n as i64)) as i32,
                    None => 0,
                }
            } else {
                let start: usize = if s.len() > 0 && s[0] == 0x2B {
                    1
                } else {
                    0
                };
                assert(s@.skip(start as int) =~= unsigned_part(s@));
                match read_decimal(s, start, 0x7FFF_FFFF) {
                    Some(n) => n as i32,
                    None => 0,
                }
            }
        },
        None => 0,
    }
}

/// The number of the device for Merkle trees: the value of the setting where that is the
/// text of a `u64`, zero otherwise.
pub fn merkle_gpu_id(setting: Option<&[u8]>) -> (r: u64)
    ensures
        r == (match setting {
            Some(s) => if is_u64_text(s@) {
                signed_decimal(s@)
            } else {
                0
            },
            None => 0,
        }),
{
    match setting {
        Some(s) => {
            if s.len() > 0 && s[0] == 0x2D {
                return 0;
            }
            let start: usize = if s.len() > 0 && s[0] == 0x2B {
                1
            } else {
                0
            };
            assert(s@.skip(start as int) =~= unsigned_part(s@));
            match read_decimal(s, start, u64::MAX) {
                Some(n) => n,
                None => 0,
            }
        },
        None => 0,
    }
}

/// The first use prepares the coset powers of the generator of the multiplicative group for
/// log size 24, then the twiddle factors for the log sizes 2 to 24, in this order.
pub proof fn lemma_common_actions()
    ensures
        common_actions().len() == 24,
        common_actions()[0] == (InitAction::Coset { lg_n: 24, coset_gen: 14293326489335486720 }),
        forall|k: int|
            1 <= k < 24 ==> #[trigger] common_actions()[k] == (InitAction::Twiddle {
                lg_n: (k + 1) as usize,
            }),
{
    lemma_twiddle_range(25);
    assert forall|k: int| 1 <= k < 24 implies #[trigger] common_actions()[k] == (
    InitAction::Twiddle { lg_n: (k + 1) as usize }) by {
        assert(common_actions()[k] == twiddle_range(25)[k - 1]);
    }
}

/// The actions of a range, one by one.
proof fn lemma_twiddle_range(end: nat)
    requires
        2 <= end <= 25,
    ensures
        twiddle_range(end).len() == end - 2,
        forall|k: int|
            0 <= k < end - 2 ==> #[trigger] twiddle_range(end)[k] == (InitAction::Twiddle {
                lg_n: (k + 2) as usize,
            }),
    decreases end,
{
    if end > 2 {
        lemma_twiddle_range((end - 1) as nat);
    }
}

/// The actions hold the computation of the twiddle factors for log size `lg`.
pub open spec fn computes_twiddles(actions: Seq<InitAction>, lg: usize) -> bool {
    actions.contains(InitAction::Twiddle { lg_n: lg })
}

/// The actions hold a computation of the powers of the generator of the multiplicative
/// group that covers log size `lg`.
pub open spec fn computes_coset(actions: Seq<InitAction>, lg: usize) -> bool {
    exists|k: int|
        0 <= k < actions.len() && (#[trigger] actions[k] matches InitAction::Coset {
            lg_n,
            coset_gen,
        } && lg <= lg_n && coset_gen == 14293326489335486720)
}

/// What the device is said to have was there before or is among the actions: after
/// `ensure_twiddle_factors` the device has the factors that were asked for, and everything
/// that it is said to have has really been computed.
pub proof fn lemma_twiddles_are_computed(
    before: GpuState,
    after: GpuState,
    lg_n: usize,
    lg: usize,
)
    requires
        after.extends(&before, Some(lg_n), None),
    ensures
        after.has_twiddles(lg_n),
        before.has_twiddles(lg) ==> after.has_twiddles(lg),
        before.has_coset(lg) ==> after.has_coset(lg),
        after.has_twiddles(lg) ==> before.has_twiddles(lg) || computes_twiddles(
            before.missing_twiddles(lg_n),
            lg,
        ),
        after.has_coset(lg) ==> before.has_coset(lg) || computes_coset(
            before.missing_twiddles(lg_n),
            lg,
        ),
{
    let actions = before.missing_twiddles(lg_n);
    assert(actions.take(before.missing_common().len() as int) =~= before.missing_common());
    lemma_common_is_computed(before, actions, lg);
    if after.has_twiddles(lg) && !before.has_twiddles(lg) && lg == lg_n {
        if !(!before.spec_initialized() && 2 <= lg <= 24) {
            assert(actions[actions.len() - 1] == (InitAction::Twiddle { lg_n }));
        }
    }
}

/// What the device is said to have was there before or is among the actions: after
/// `ensure_coset_factors` the device has the powers that were asked for, and everything that
/// it is said to have has really been computed.
pub proof fn lemma_coset_is_computed(before: GpuState, after: GpuState, lg_n: usize, lg: usize)
    requires
        after.extends(&before, None, Some(lg_n)),
    ensures
        after.has_coset(lg_n),
        before.has_twiddles(lg) ==> after.has_twiddles(lg),
        before.has_coset(lg) ==> after.has_coset(lg),
        after.has_twiddles(lg) ==> before.has_twiddles(lg) || computes_twiddles(
            before.missing_coset(lg_n),
            lg,
        ),
        after.has_coset(lg) ==> before.has_coset(lg) || computes_coset(
            before.missing_coset(lg_n),
            lg,
        ),
{
    let actions = before.missing_coset(lg_n);
    assert(actions.take(before.missing_common().len() as int) =~= before.missing_common());
    lemma_common_is_computed(before, actions, lg);
    if after.has_coset(lg) && !before.has_coset(lg) && lg <= lg_n {
        if !(!before.spec_initialized() && lg <= 24) {
            if before.has_coset(lg_n) {
                lemma_coset_downward(before, lg, lg_n);
            }
            assert(actions[actions.len() - 1] == coset_action(lg_n));
        }
    }
}

/// Before a low-degree extension, what the device is said to have was there before or is
/// among the actions: the device has the twiddle factors and the coset powers for the
/// length of the values, and everything that it is said to have has really been computed.
pub proof fn lemma_lde_is_computed(before: GpuState, after: GpuState, lg_n: usize, lg: usize)
    requires
        after.extends(&before, Some(lg_n), Some(lg_n)),
    ensures
        after.has_twiddles(lg_n),
        after.has_coset(lg_n),
        before.has_twiddles(lg) ==> after.has_twiddles(lg),
        before.has_coset(lg) ==> after.has_coset(lg),
        after.has_twiddles(lg) ==> before.has_twiddles(lg) || computes_twiddles(
            before.missing_lde(lg_n),
            lg,
        ),
        after.has_coset(lg) ==> before.has_coset(lg) || computes_coset(
            before.missing_lde(lg_n),
            lg,
        ),
{
    let first = before.missing_twiddles(lg_n);
    let actions = before.missing_lde(lg_n);
    assert(actions.take(before.missing_common().len() as int) =~= before.missing_common());
    lemma_common_is_computed(before, actions, lg);
    if after.has_twiddles(lg) && !before.has_twiddles(lg) && lg == lg_n {
        if !(!before.spec_initialized() && 2 <= lg <= 24) {
            assert(actions[first.len() - 1] == (InitAction::Twiddle { lg_n }));
        }
    }
    if after.has_coset(lg) && !before.has_coset(lg) && lg <= lg_n {
        if !(!before.spec_initialized() && lg <= 24) {
            if before.has_coset(lg_n) {
                lemma_coset_downward(before, lg, lg_n);
            }
            assert(actions[actions.len() - 1] == coset_action(lg_n));
        }
    }
}

/// Coset powers for a size cover all smaller sizes.
pub proof fn lemma_coset_downward(state: GpuState, small: usize, large: usize)
    requires
        small <= large,
        state.has_coset(large),
    ensures
        state.has_coset(small),
{
}

/// The common sizes are computed on first use.
proof fn lemma_common_is_computed(before: GpuState, actions: Seq<InitAction>, lg: usize)
    requires
        actions.len() >= before.missing_common().len(),
        actions.take(before.missing_common().len() as int) == before.missing_common(),
    ensures
        !before.spec_initialized() && 2 <= lg <= 24 ==> computes_twiddles(actions, lg),
        !before.spec_initialized() && lg <= 24 ==> computes_coset(actions, lg),
{
    if !before.spec_initialized() {
        let common = common_actions();
        lemma_common_actions();
        assert(actions.take(common.len() as int)[0] == common[0]);
        assert(actions[0] == common[0]);
        if 2 <= lg <= 24 {
            assert(common[lg - 1] == (InitAction::Twiddle { lg_n: lg }));
            assert(actions.take(common.len() as int)[lg - 1] == common[lg - 1]);
            assert(actions[lg - 1] == (InitAction::Twiddle { lg_n: lg }));
        }
    }
}

/// Writing digits behind digits appends them to the number.
pub proof fn lemma_decimal_concat(a: Seq<u8>, b: Seq<u8>)
    requires
        forall|i: int| 0 <= i < b.len() ==> is_digit(#[trigger] b[i]),
    ensures
        decimal(a + b) == decimal(a) * pow(10, b.len()) + decimal(b),
        b.len() == 1 ==> decimal(b) == b[0] - 48,
    decreases b.len(),
{
    reveal(pow);
    if b.len() == 0 {
        assert(a + b =~= a);
        lemma_mul_basics(decimal(a) as int);
    } else {
        let less = b.drop_last();
        assert((a + b).drop_last() =~= a + less);
        assert((a + b).last() == b.last());
        lemma_decimal_concat(a, less);
        let d = decimal(a) as int;
        let p = pow(10, less.len());
        assert(10 * (d * p) == d * (10 * p)) by (nonlinear_arith);
        if b.len() == 1 {
            assert(less =~= Seq::empty());
        }
    }
}

/// The texts of device numbers: digits behind at most one sign, from `-2147483648` to
/// `2147483647` for transforms, and from `0` to `18446744073709551615`, without a minus sign,
/// for Merkle trees.
pub proof fn lemma_device_number_texts(digits: Seq<u8>)
    requires
        digits.len() > 0,
        forall|i: int| 0 <= i < digits.len() ==> 48 <= #[trigger] digits[i] <= 57,
    ensures
        is_i32_text(digits) <==> decimal(digits) <= 2147483647,
        is_i32_text(seq![43u8] + digits) <==> decimal(digits) <= 2147483647,
        is_i32_text(seq![45u8] + digits) <==> decimal(digits) <= 2147483648,
        is_u64_text(digits) <==> decimal(digits) <= 18446744073709551615,
        is_u64_text(seq![43u8] + digits) <==> decimal(digits) <= 18446744073709551615,
        !is_u64_text(seq![45u8] + digits),
        signed_decimal(digits) == decimal(digits),
        signed_decimal(seq![43u8] + digits) == decimal(digits),
        signed_decimal(seq![45u8] + digits) == -decimal(digits),
{
    let plus = seq![43u8] + digits;
    let minus = seq![45u8] + digits;
    assert(digits[0] <= 57);
    assert(plus.drop_first() =~= digits);
    assert(minus.drop_first() =~= digits);
    assert(forall|i: int| 0 <= i < digits.len() ==> is_digit(#[trigger] digits[i]));
}

/// A text with a byte that is neither a digit nor a leading sign, or without a digit, is no
/// device number.
pub proof fn lemma_other_texts(s: Seq<u8>)
    requires
        s.len() == 0 || (s.len() == 1 && !(48 <= s[0] <= 57)) || (s[0] != 43 && s[0] != 45 && !(48
            <= s[0] <= 57)) || (exists|i: int|
            0 < i < s.len() && !(48 <= #[trigger] s[i] <= 57)),
    ensures
        !is_i32_text(s),
        !is_u64_text(s),
{
    let u = unsigned_part(s);
    if is_decimal(u) {
        assert(is_digit(u[0]));
        if s.len() > 1 && (s[0] == 43 || s[0] == 45 || 48 <= s[0] <= 57) {
            let i = choose|i: int| 0 < i < s.len() && !(48 <= #[trigger] s[i] <= 57);
            let k = if u.len() == s.len() {
                i
            } else {
                i - 1
            };
            assert(u[k] == s[i]);
            assert(is_digit(u[k]));
        }
    }
}

/// What is missing, in plain terms: on first use the common actions; besides them the one
/// size that is asked for, where it is neither common nor there already.
pub proof fn lemma_missing_in_plain_terms(state: GpuState, lg_n: usize)
    ensures
        state.spec_initialized() ==> state.missing_common().len() == 0,
        !state.spec_initialized() ==> state.missing_common() == common_actions(),
        !state.spec_initialized() ==> !state.has_twiddles(lg_n) && !state.has_coset(lg_n),
        state.spec_initialized() && state.has_twiddles(lg_n) ==> state.missing_twiddles(
            lg_n,
        ).len() == 0,
        state.spec_initialized() && !state.has_twiddles(lg_n) ==> state.missing_twiddles(lg_n)
            == seq![InitAction::Twiddle { lg_n }],
        !state.spec_initialized() && 2 <= lg_n <= 24 ==> state.missing_twiddles(lg_n)
            == common_actions(),
        !state.spec_initialized() && !(2 <= lg_n <= 24) ==> state.missing_twiddles(lg_n)
            == common_actions().push(InitAction::Twiddle { lg_n }),
        state.spec_initialized() && state.has_coset(lg_n) ==> state.missing_coset(lg_n).len() == 0,
        state.spec_initialized() && !state.has_coset(lg_n) ==> state.missing_coset(lg_n)
            == seq![InitAction::Coset { lg_n, coset_gen: 14293326489335486720 }],
        !state.spec_initialized() && lg_n <= 24 ==> state.missing_coset(lg_n) == common_actions(),
        !state.spec_initialized() && lg_n > 24 ==> state.missing_coset(lg_n)
            == common_actions().push(
            InitAction::Coset { lg_n, coset_gen: 14293326489335486720 },
        ),
        state.has_coset(lg_n) || (!state.spec_initialized() && lg_n <= 24) ==> state.missing_lde(
            lg_n,
        ) == state.missing_twiddles(lg_n),
        !(state.has_coset(lg_n) || (!state.spec_initialized() && lg_n <= 24))
            ==> state.missing_lde(lg_n) == state.missing_twiddles(lg_n).push(
            InitAction::Coset { lg_n, coset_gen: 14293326489335486720 },
        ),
{
    let none: Seq<InitAction> = Seq::empty();
    assert(common_actions() + none =~= common_actions());
    assert(state.missing_twiddles(lg_n) + none =~= state.missing_twiddles(lg_n));
}

} // verus!
