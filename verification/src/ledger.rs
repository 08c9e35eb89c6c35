//! The memory ledger: accounts with limits that can be changed while memory is granted.
//!
//! An [`Account`] is a bounded memory budget. Raising its limit takes effect at once. Lowering it
//! never revokes granted memory: idle capacity is harvested at once, and the remaining deficit is
//! collected as guards release. Whoever draws from an account, waiting or not, draws from the same
//! permits, so the grants together never exceed what the account holds.
use tokio::sync::Semaphore;
use vstd::prelude::*;
use vstd::string::*;

use crate::semaphore::{
    add_permits, available_permits, forget_permits, is_open, max_permits, new_semaphore,
    permit_limit, permits_of, try_take_permits,
};

verus! {

/// Workload category of an account.
#[derive(Clone, Copy, Debug, PartialEq, Eq, Structural)]
pub enum Category {
    Ingest,
    Query,
    Background,
    Cache,
}

/// The number of bytes one permit stands for.
#[derive(Clone, Copy, Debug, PartialEq, Eq, Structural)]
pub enum PermitGranularity {
    Kilobyte,
    Megabyte,
}

/// What to do when an account is exhausted.
#[derive(Clone, Copy, Debug, PartialEq, Eq, Structural)]
pub enum OnExhaustedPolicy {
    /// Wait for capacity, at most for the given number of nanoseconds.
    Wait { timeout: u64 },
    Fail,
}

/// Why memory was not granted.
#[derive(Clone, Copy, Debug, PartialEq, Eq, Structural)]
pub enum MemoryError {
    MemoryLimitExceeded { requested_bytes: u64, limit_bytes: u64 },
    MemoryAcquireTimeout { requested_bytes: u64, waited: u64 },
}

/// Max permits the shrink collector takes per round, which bounds what it holds back from others
/// to one chunk.
pub const SHRINK_CHUNK_MAX_PERMITS: u32 = 64;

/// The largest number of permits an account can hold.
pub open spec fn account_limit() -> nat {
    if permit_limit() < u32::MAX {
        permit_limit()
    } else {
        u32::MAX as nat
    }
}

/// The larger of two numbers.
pub open spec fn max_of(a: nat, b: nat) -> nat {
    if a < b {
        b
    } else {
        a
    }
}

/// The smaller of two numbers.
pub open spec fn min_of(a: nat, b: nat) -> nat {
    if a < b {
        a
    } else {
        b
    }
}

impl PermitGranularity {
    /// The number of bytes one permit stands for.
    pub open spec fn size(self) -> nat {
        match self {
            PermitGranularity::Kilobyte => 1024,
            PermitGranularity::Megabyte => 1_048_576,
        }
    }

    /// The number of permits that `bytes` take: rounded up, and no more than an account can hold.
    pub open spec fn permits(self, bytes: nat) -> nat {
        min_of(((bytes + self.size() - 1) / self.size() as int) as nat, account_limit())
    }

    /// The number of bytes one permit stands for.
    pub fn bytes(&self) -> (bytes: u64)
        ensures
            bytes == self.size(),
            bytes > 0,
    {
        match self {
            PermitGranularity::Kilobyte => 1024,
            PermitGranularity::Megabyte => 1_048_576,
        }
    }

    /// Rounds `bytes` up to permits. More than an account can hold saturates.
    pub fn bytes_to_permits(&self, bytes: u64) -> (permits: u32)
        ensures
            permits == self.permits(bytes as nat),
            permits <= account_limit(),
    {
        let size: u64 = self.bytes();
        let whole: u64 = bytes / size;
        let rounded: u64 = if bytes % size == 0 {
            whole
        } else {
            whole + 1
        };
        proof {
            lemma_ceiling(bytes as int, size as int);
        }
        let limit: usize = max_permits();
        let cap: u64 = if (limit as u64) < u32::MAX as u64 {
            limit as u64
        } else {
            u32::MAX as u64
        };
        if rounded < cap {
            rounded as u32
        } else {
            cap as u32
        }
    }

    /// The number of bytes that permits stand for.
    pub fn permits_to_bytes(&self, permits: u32) -> (bytes: u64)
        ensures
            bytes == permits * self.size(),
            bytes < u64::MAX,
    {
        let size: u64 = self.bytes();
        assert(permits * size <= u32::MAX * 1_048_576) by (nonlinear_arith)
            requires
                permits <= u32::MAX,
                size <= 1_048_576,
        ;
        permits as u64 * size
    }
}

proof fn lemma_ceiling(bytes: int, size: int)
    requires
        0 <= bytes,
        0 < size,
    ensures
        (bytes + size - 1) / size == (if bytes % size == 0 {
            bytes / size
        } else {
            bytes / size + 1
        }),
{
    let q = bytes / size;
    let r = bytes % size;
    assert(bytes == q * size + r && 0 <= r < size) by (nonlinear_arith)
        requires
            0 < size,
            q == bytes / size,
            r == bytes % size,
    ;
    if r == 0 {
        assert((bytes + size - 1) / size == q) by (nonlinear_arith)
            requires
                bytes == q * size,
                0 < size,
        ;
    } else {
        assert((bytes + size - 1) / size == q + 1) by (nonlinear_arith)
            requires
                bytes == q * size + r,
                0 < r < size,
        ;
    }
}

/// Whole permits take exactly as many permits again.
pub proof fn lemma_whole_permits(granularity: PermitGranularity, permits: nat)
    requires
        permits <= account_limit(),
    ensures
        granularity.permits(permits * granularity.size()) == permits,
{
    let size = granularity.size() as int;
    let bytes = permits * size;
    assert(bytes % size == 0 && bytes / size == permits) by (nonlinear_arith)
        requires
            bytes == permits * size,
            0 < size,
    ;
    assert(0 <= bytes) by (nonlinear_arith)
        requires
            bytes == permits * size,
            0 < size,
            0 <= permits,
    ;
    lemma_ceiling(bytes, size);
}

/// What an account holds, in permits.
pub struct AccountModel {
    pub name: Seq<char>,
    pub category: Category,
    pub granularity: PermitGranularity,
    /// The desired capacity.
    pub target: nat,
    /// The capacity the account embodies: what is available and what is granted.
    pub effective: nat,
    /// What is granted, a chunk that the shrink collector holds included.
    pub used: nat,
    /// Whether a shrink collector runs.
    pub collecting: bool,
}

/// A bounded memory account with a limit that can be changed.
#[derive(Debug)]
pub struct Account {
    name: String,
    category: Category,
    granularity: PermitGranularity,
    semaphore: Semaphore,
    target_permits: u32,
    effective_permits: u32,
    collecting: bool,
}

/// Granted capacity of an account.
#[derive(Debug)]
pub struct AccountGuard {
    granularity: PermitGranularity,
    permits: u32,
}

impl View for Account {
    type V = AccountModel;

    closed spec fn view(&self) -> AccountModel {
        AccountModel {
            name: self.name@,
            category: self.category,
            granularity: self.granularity,
            target: self.target_permits as nat,
            effective: self.effective_permits as nat,
            used: (self.effective_permits - permits_of(self.semaphore)) as nat,
            collecting: self.collecting,
        }
    }
}

impl AccountModel {
    /// The capacity that is not granted.
    pub open spec fn idle(self) -> int {
        self.effective - self.used
    }

    /// The number of bytes that permits of the account stand for.
    pub open spec fn bytes(self, permits: nat) -> nat {
        permits * self.granularity.size()
    }

    /// The number of permits that bytes take in the account.
    pub open spec fn permits(self, bytes: u64) -> nat {
        self.granularity.permits(bytes as nat)
    }

    /// What is granted never exceeds what the account embodies, which is the limit or more while a
    /// shrink is converging, and no more than an account can hold.
    pub open spec fn valid(self) -> bool {
        self.used <= self.effective && self.target <= self.effective && self.effective
            <= account_limit()
    }

    /// The account under another limit: granted memory is untouched, and the capacity is the
    /// limit, or what is granted where that is more.
    pub open spec fn limited(self, target: nat) -> AccountModel {
        AccountModel { target, effective: max_of(target, self.used), ..self }
    }

    /// The account with more permits granted.
    pub open spec fn granted(self, permits: nat) -> AccountModel {
        AccountModel { used: self.used + permits, ..self }
    }

    /// The account with permits returned.
    pub open spec fn returned(self, permits: nat) -> AccountModel {
        AccountModel { used: (self.used - permits) as nat, ..self }
    }

    /// Whether a guard that was granted permits can grow by some bytes now.
    pub open spec fn grows(self, granted: nat, bytes: u64) -> bool {
        self.bytes(granted) + bytes <= self.bytes(self.target) && self.permits(bytes)
            <= self.idle()
    }

    /// The whole permits that a guard that was granted permits returns when it shrinks by some
    /// bytes.
    pub open spec fn shed(self, granted: nat, bytes: u64) -> nat {
        min_of((bytes as int / self.granularity.size() as int) as nat, granted)
    }

    /// The chunk that the shrink collector waits for once idle capacity is harvested, if the limit
    /// is still exceeded.
    pub open spec fn next_chunk(self) -> Option<nat> {
        let harvested = self.limited(self.target);
        if harvested.effective == harvested.target {
            None
        } else {
            Some(
                min_of(
                    (harvested.effective - harvested.target) as nat,
                    SHRINK_CHUNK_MAX_PERMITS as nat,
                ),
            )
        }
    }

    /// Whether a request is within the limit and can be granted now.
    pub open spec fn grants(self, bytes: u64) -> bool {
        bytes <= self.bytes(self.target) && self.permits(bytes) <= self.idle()
    }
}

impl View for AccountGuard {
    type V = nat;

    /// The number of permits granted to the guard.
    closed spec fn view(&self) -> nat {
        self.permits as nat
    }
}

impl AccountGuard {
    /// The guard's grant is part of what the account granted.
    pub closed spec fn belongs_to(&self, account: AccountModel) -> bool {
        self.granularity == account.granularity && self.permits <= account.used
    }

    /// A guard belongs to every account of its granularity that has granted at least as much.
    pub proof fn lemma_belongs(&self, account: AccountModel, other: AccountModel)
        requires
            self.belongs_to(account),
        ensures
            self@ <= account.used,
            other.granularity == account.granularity && self@ <= other.used
                ==> self.belongs_to(other),
    {
    }

    /// A guard to which nothing is granted.
    pub fn none(granularity: PermitGranularity) -> (guard: AccountGuard)
        ensures
            guard@ == 0,
            forall|account: AccountModel|
                account.granularity == granularity ==> #[trigger] guard.belongs_to(account),
    {
        AccountGuard { granularity, permits: 0 }
    }

    /// Bytes granted to this guard.
    pub fn granted_bytes(&self) -> (bytes: u64)
        ensures
            forall|account: AccountModel| #[trigger]
                self.belongs_to(account) ==> bytes == account.bytes(self@),
    {
        self.granularity.permits_to_bytes(self.permits)
    }

    /// Grows this guard. Returns false, and grows nothing, if the capacity or the limit does not
    /// allow it. The limit check compares bytes, so a request beyond the limit fails instead of
    /// being rounded down to it.
    pub fn try_grow(&mut self, account: &mut Account, bytes: u64) -> (grown: bool)
        requires
            old(account).wf(),
            old(self).belongs_to(old(account)@),
        ensures
            final(account).wf(),
            final(self).belongs_to(final(account)@),
            grown == old(account)@.grows(old(self)@, bytes),
            grown == (old(account)@.bytes(old(self)@) + bytes <= old(account)@.bytes(
                old(account)@.target,
            ) && old(account)@.permits(bytes) <= old(account)@.idle()),
            grown ==> final(self)@ == old(self)@ + old(account)@.permits(bytes) && final(account)@
                == old(account)@.granted(old(account)@.permits(bytes)),
            !grown ==> final(self)@ == old(self)@ && final(account)@ == old(account)@,
    {
        let target_bytes: u64 = account.target_limit_bytes();
        let granted: u64 = self.granted_bytes();
        if granted.saturating_add(bytes) > target_bytes {
            return false;
        }
        let permits: u32 = self.granularity.bytes_to_permits(bytes);
        if !account.take_permits(permits) {
            return false;
        }
        self.permits = self.permits + permits;
        true
    }

    /// Checks that growing by `bytes` stays within the limit of the account, before waiting for
    /// the capacity.
    pub fn check_growth(&self, account: &Account, bytes: u64) -> (result: Result<(), MemoryError>)
        requires
            account.wf(),
            self.belongs_to(account@),
        ensures
            account@.bytes(self@) + bytes <= account@.bytes(account@.target) ==> result == Ok::<
                (),
                MemoryError,
            >(()),
            account@.bytes(self@) + bytes > account@.bytes(account@.target) ==> (result matches Err(
                MemoryError::MemoryLimitExceeded { requested_bytes, limit_bytes },
            ) && requested_bytes == bytes && limit_bytes == account@.bytes(account@.target)),
    {
        let target_bytes: u64 = account.target_limit_bytes();
        let granted: u64 = self.granted_bytes();
        if granted.saturating_add(bytes) > target_bytes {
            return Err(
                MemoryError::MemoryLimitExceeded {
                    requested_bytes: bytes,
                    limit_bytes: target_bytes,
                },
            );
        }
        Ok(())
    }

    /// Takes the capacity of a growth that was checked, if it is available now.
    pub fn grow_checked(&mut self, account: &mut Account, bytes: u64) -> (grown: bool)
        requires
            old(account).wf(),
            old(self).belongs_to(old(account)@),
        ensures
            final(account).wf(),
            final(self).belongs_to(final(account)@),
            grown == (old(account)@.permits(bytes) <= old(account)@.idle()),
            grown ==> final(self)@ == old(self)@ + old(account)@.permits(bytes) && final(account)@
                == old(account)@.granted(old(account)@.permits(bytes)),
            !grown ==> final(self)@ == old(self)@ && final(account)@ == old(account)@,
    {
        let permits: u32 = self.granularity.bytes_to_permits(bytes);
        if !account.take_permits(permits) {
            return false;
        }
        self.permits = self.permits + permits;
        true
    }

    /// Returns part of the granted capacity, releasing whole permits only: `bytes` is rounded down
    /// to the permit granularity, so a request below one permit releases nothing and returns 0.
    /// Returns the bytes actually released, also clamped to the granted amount; any sub-permit
    /// remainder stays granted and is the caller's responsibility to track.
    pub fn shrink(&mut self, account: &mut Account, bytes: u64) -> (released: u64)
        requires
            old(account).wf(),
            old(self).belongs_to(old(account)@),
        ensures
            final(account).wf(),
            final(self).belongs_to(final(account)@),
            released == old(account)@.bytes(old(account)@.shed(old(self)@, bytes)),
            final(self)@ == old(self)@ - old(account)@.shed(old(self)@, bytes),
            ({
                let permits = min_of(
                    (bytes as int / old(account)@.granularity.size() as int) as nat,
                    old(self)@,
                );
                &&& released == old(account)@.bytes(permits)
                &&& final(self)@ == old(self)@ - permits
                &&& final(account)@ == old(account)@.returned(permits)
            }),
    {
        let whole: u64 = bytes / self.granularity.bytes();
        let permits: u32 = if whole < self.permits as u64 {
            whole as u32
        } else {
            self.permits
        };
        if permits == 0 {
            assert(account@.returned(0) == account@);
            return 0;
        }
        self.permits = self.permits - permits;
        account.return_permits(permits);
        self.granularity.permits_to_bytes(permits)
    }

    /// Gives the whole grant back.
    pub fn release(self, account: &mut Account)
        requires
            old(account).wf(),
            self.belongs_to(old(account)@),
        ensures
            final(account).wf(),
            final(account)@ == old(account)@.returned(self@),
    {
        account.return_permits(self.permits);
    }
}

impl Account {
    /// The semaphore is open and the counters agree with it.
    pub closed spec fn wf(&self) -> bool {
        &&& is_open(self.semaphore)
        &&& permits_of(self.semaphore) <= self.effective_permits
        &&& self.effective_permits <= account_limit()
        &&& self.target_permits <= self.effective_permits
    }

    /// A well-formed account never grants more than it embodies.
    pub proof fn lemma_wf_is_valid(&self)
        requires
            self.wf(),
        ensures
            self@.valid(),
    {
    }

    /// Creates a bounded account. The limit saturates at the number of permits an account can
    /// hold. Admission checks compare request bytes against the saturated limit, so oversized
    /// requests fail instead of being silently clamped.
    pub fn new(
        name: String,
        category: Category,
        limit_bytes: u64,
        granularity: PermitGranularity,
    ) -> (account: Account)
        ensures
            account.wf(),
            account@ == (AccountModel {
                name: name@,
                category,
                granularity,
                target: granularity.permits(limit_bytes as nat),
                effective: granularity.permits(limit_bytes as nat),
                used: 0,
                collecting: false,
            }),
    {
        let limit_permits: u32 = granularity.bytes_to_permits(limit_bytes);
        Account {
            name,
            category,
            granularity,
            semaphore: new_semaphore(limit_permits as usize),
            target_permits: limit_permits,
            effective_permits: limit_permits,
            collecting: false,
        }
    }

    /// Account name.
    pub fn name(&self) -> (name: &str)
        ensures
            name@ == self@.name,
    {
        self.name.as_str()
    }

    /// Workload category.
    pub fn category(&self) -> (category: Category)
        ensures
            category == self@.category,
    {
        self.category
    }

    /// Permit granularity of this account.
    pub fn granularity(&self) -> (granularity: PermitGranularity)
        ensures
            granularity == self@.granularity,
    {
        self.granularity
    }

    /// Desired limit in bytes.
    pub fn target_limit_bytes(&self) -> (bytes: u64)
        ensures
            bytes == self@.bytes(self@.target),
            bytes < u64::MAX,
    {
        self.granularity.permits_to_bytes(self.target_permits)
    }

    /// Capacity the account currently embodies. Equals the target except while a shrink is
    /// converging.
    pub fn effective_limit_bytes(&self) -> (bytes: u64)
        ensures
            bytes == self@.bytes(self@.effective),
    {
        self.granularity.permits_to_bytes(self.effective_permits)
    }

    /// Bytes currently granted to guards; a chunk that the shrink collector holds counts as used.
    pub fn used_bytes(&self) -> (bytes: u64)
        requires
            self.wf(),
        ensures
            bytes == self@.bytes(self@.used),
    {
        let available: u32 = available_permits(&self.semaphore) as u32;
        self.granularity.permits_to_bytes(self.effective_permits - available)
    }

    /// Takes permits if they are available.
    fn take_permits(&mut self, permits: u32) -> (taken: bool)
        requires
            old(self).wf(),
            permits <= account_limit(),
        ensures
            final(self).wf(),
            taken == (permits <= old(self)@.idle()),
            taken ==> final(self)@ == old(self)@.granted(permits as nat),
            !taken ==> final(self)@ == old(self)@,
    {
        try_take_permits(&mut self.semaphore, permits)
    }

    /// Returns permits that were taken.
    fn return_permits(&mut self, permits: u32)
        requires
            old(self).wf(),
            permits <= old(self)@.used,
        ensures
            final(self).wf(),
            final(self)@ == old(self)@.returned(permits as nat),
    {
        add_permits(&mut self.semaphore, permits as usize);
    }

    /// Adjusts the limit. Returns the remaining shrink deficit in bytes.
    ///
    /// A higher limit takes effect at once. A lower one harvests idle capacity at once and leaves
    /// the remainder to the shrink collector; granted memory is never revoked. The limit saturates
    /// like that of [`Account::new`].
    pub fn set_limit_bytes(&mut self, bytes: u64) -> (deficit: u64)
        requires
            old(self).wf(),
        ensures
            final(self).wf(),
            final(self)@ == old(self)@.limited(old(self)@.permits(bytes)),
            deficit == final(self)@.bytes((final(self)@.effective - final(self)@.target) as nat),
    {
        let new_target: u32 = self.granularity.bytes_to_permits(bytes);
        let effective: u32 = self.effective_permits;
        self.target_permits = new_target;
        if new_target >= effective {
            let delta: u32 = new_target - effective;
            if delta > 0 {
                self.effective_permits = new_target;
                add_permits(&mut self.semaphore, delta as usize);
            }
            0
        } else {
            let deficit: u32 = effective - new_target;
            let forgotten: u32 = forget_permits(&mut self.semaphore, deficit as usize) as u32;
            let now_effective: u32 = effective - forgotten;
            self.effective_permits = now_effective;
            self.granularity.permits_to_bytes(now_effective - new_target)
        }
    }

    /// Begins to collect a shrink. Returns false while another collection runs.
    pub fn begin_collect(&mut self) -> (begun: bool)
        requires
            old(self).wf(),
        ensures
            final(self).wf(),
            begun == !old(self)@.collecting,
            final(self)@ == (AccountModel { collecting: true, ..old(self)@ }),
    {
        let begun: bool = !self.collecting;
        self.collecting = true;
        begun
    }

    /// Ends a collection that did not converge, so that the next one resumes it.
    pub fn end_collect(&mut self)
        requires
            old(self).wf(),
        ensures
            final(self).wf(),
            final(self)@ == (AccountModel { collecting: false, ..old(self)@ }),
    {
        self.collecting = false;
    }

    /// Harvests idle capacity and sizes the next chunk to wait for. Returns none, and ends the
    /// collection, once the account has converged: the capacity is the limit.
    pub fn harvest(&mut self) -> (chunk: Option<u32>)
        requires
            old(self).wf(),
        ensures
            final(self).wf(),
            match old(self)@.next_chunk() {
                Some(permits) => chunk == Some(permits as u32),
                None => chunk is None,
            },
            ({
                let harvested = old(self)@.limited(old(self)@.target);
                if harvested.effective == harvested.target {
                    chunk is None && final(self)@ == (AccountModel {
                        collecting: false,
                        ..harvested
                    })
                } else {
                    chunk matches Some(permits) && permits == min_of(
                        (harvested.effective - harvested.target) as nat,
                        SHRINK_CHUNK_MAX_PERMITS as nat,
                    ) && permits <= account_limit() && final(self)@ == harvested
                }
            }),
    {
        let target: u32 = self.target_permits;
        let effective: u32 = self.effective_permits;
        if effective <= target {
            self.collecting = false;
            return None;
        }
        let deficit: u32 = effective - target;
        let forgotten: u32 = forget_permits(&mut self.semaphore, deficit as usize) as u32;
        let now_effective: u32 = effective - forgotten;
        self.effective_permits = now_effective;
        if now_effective <= target {
            self.collecting = false;
            return None;
        }
        let missing: u32 = now_effective - target;
        if missing < SHRINK_CHUNK_MAX_PERMITS {
            Some(missing)
        } else {
            Some(SHRINK_CHUNK_MAX_PERMITS)
        }
    }

    /// Takes a chunk for the shrink collector, if it is available now.
    pub fn take_chunk(&mut self, chunk: u32) -> (taken: bool)
        requires
            old(self).wf(),
            chunk <= account_limit(),
        ensures
            final(self).wf(),
            taken == (chunk <= old(self)@.idle()),
            taken ==> final(self)@ == old(self)@.granted(chunk as nat),
            !taken ==> final(self)@ == old(self)@,
    {
        self.take_permits(chunk)
    }

    /// Takes a chunk that the shrink collector holds out of the capacity, as far as the limit is
    /// still exceeded, and returns the rest of it.
    pub fn settle_chunk(&mut self, chunk: u32)
        requires
            old(self).wf(),
            chunk <= old(self)@.used,
        ensures
            final(self).wf(),
            final(self)@ == old(self)@.without_chunk(chunk as nat),
    {
        let target: u32 = self.target_permits;
        let effective: u32 = self.effective_permits;
        let needed: u32 = effective.saturating_sub(target);
        if needed == 0 {
            // The limit was raised meanwhile; return the capacity.
            self.return_permits(chunk);
            return;
        }
        let forget: u32 = if chunk < needed {
            chunk
        } else {
            needed
        };
        if forget < chunk {
            self.return_permits(chunk - forget);
        }
        self.effective_permits = effective - forget;
    }

    /// Checks a request against the limit, comparing in bytes before any rounding to permits: a
    /// request larger than the limit must fail instead of being clamped.
    pub fn ensure_within_target(&self, bytes: u64) -> (result: Result<(), MemoryError>)
        ensures
            bytes <= self@.bytes(self@.target) ==> result == Ok::<(), MemoryError>(()),
            bytes > self@.bytes(self@.target) ==> (result matches Err(
                MemoryError::MemoryLimitExceeded { requested_bytes, limit_bytes },
            ) && requested_bytes == bytes && limit_bytes == self@.bytes(self@.target)),
    {
        let limit_bytes: u64 = self.target_limit_bytes();
        if bytes <= limit_bytes {
            Ok(())
        } else {
            Err(MemoryError::MemoryLimitExceeded { requested_bytes: bytes, limit_bytes })
        }
    }

    /// Takes the capacity of a request that was checked against the limit, if it is available now.
    pub fn acquire_checked(&mut self, bytes: u64) -> (guard: Option<AccountGuard>)
        requires
            old(self).wf(),
        ensures
            final(self).wf(),
            guard is Some <==> old(self)@.permits(bytes) <= old(self)@.idle(),
            guard matches Some(granted) ==> granted@ == old(self)@.permits(bytes)
                && granted.belongs_to(final(self)@) && final(self)@ == old(self)@.granted(
                granted@,
            ),
            guard is None ==> final(self)@ == old(self)@,
    {
        let permits: u32 = self.granularity.bytes_to_permits(bytes);
        if self.take_permits(permits) {
            Some(AccountGuard { granularity: self.granularity, permits })
        } else {
            None
        }
    }

    /// Tries to acquire memory without waiting.
    pub fn try_acquire(&mut self, bytes: u64) -> (guard: Option<AccountGuard>)
        requires
            old(self).wf(),
        ensures
            final(self).wf(),
            guard is Some <==> old(self)@.grants(bytes),
            guard matches Some(granted) ==> granted@ == old(self)@.permits(bytes)
                && granted.belongs_to(final(self)@) && final(self)@ == old(self)@.granted(
                granted@,
            ),
            guard is None ==> final(self)@ == old(self)@,
    {
        if bytes > self.target_limit_bytes() {
            return None;
        }
        self.acquire_checked(bytes)
    }

    /// Acquires memory or fails at once.
    pub fn acquire_or_fail(&mut self, bytes: u64) -> (result: Result<AccountGuard, MemoryError>)
        requires
            old(self).wf(),
        ensures
            final(self).wf(),
            old(self)@.grants(bytes) ==> (result matches Ok(granted) && granted@
                == old(self)@.permits(bytes) && granted.belongs_to(final(self)@) && final(self)@
                == old(self)@.granted(granted@)),
            !old(self)@.grants(bytes) ==> (result matches Err(
                MemoryError::MemoryLimitExceeded { requested_bytes, limit_bytes },
            ) && requested_bytes == bytes && limit_bytes == old(self)@.bytes(old(self)@.target)
                && final(self)@ == old(self)@),
    {
        match self.try_acquire(bytes) {
            Some(guard) => Ok(guard),
            None => Err(
                MemoryError::MemoryLimitExceeded {
                    requested_bytes: bytes,
                    limit_bytes: self.target_limit_bytes(),
                },
            ),
        }
    }

    /// What a request gets whose wait ended without capacity.
    pub fn timed_out(bytes: u64, timeout: u64) -> (error: MemoryError)
        ensures
            error == (MemoryError::MemoryAcquireTimeout {
                requested_bytes: bytes,
                waited: timeout,
            }),
    {
        MemoryError::MemoryAcquireTimeout { requested_bytes: bytes, waited: timeout }
    }

    /// Point-in-time view of the account.
    pub fn snapshot(&self) -> (snapshot: AccountSnapshot)
        requires
            self.wf(),
        ensures
            snapshot_of(self@, snapshot),
    {
        AccountSnapshot {
            name: self.name.clone(),
            category: self.category,
            target_limit_bytes: self.target_limit_bytes(),
            effective_limit_bytes: self.effective_limit_bytes(),
            used_bytes: self.used_bytes(),
        }
    }
}

impl AccountModel {
    /// The account once a chunk that the shrink collector holds is settled: the chunk is no longer
    /// granted, and as much of it as the limit is exceeded by is gone from the capacity.
    pub open spec fn without_chunk(self, chunk: nat) -> AccountModel {
        let excess = if self.effective <= self.target {
            0
        } else {
            (self.effective - self.target) as nat
        };
        AccountModel {
            used: (self.used - chunk) as nat,
            effective: (self.effective - min_of(chunk, excess)) as nat,
            ..self
        }
    }
}

/// Point-in-time view of an account.
#[derive(Debug)]
pub struct AccountSnapshot {
    pub name: String,
    pub category: Category,
    pub target_limit_bytes: u64,
    pub effective_limit_bytes: u64,
    pub used_bytes: u64,
}

/// The snapshot shows the account.
pub open spec fn snapshot_of(account: AccountModel, snapshot: AccountSnapshot) -> bool {
    &&& snapshot.name@ == account.name
    &&& snapshot.category == account.category
    &&& snapshot.target_limit_bytes == account.bytes(account.target)
    &&& snapshot.effective_limit_bytes == account.bytes(account.effective)
    &&& snapshot.used_bytes == account.bytes(account.used)
}

/// What a ledger holds.
pub struct LedgerModel {
    pub root_budget_bytes: u64,
    pub accounts: Seq<AccountModel>,
}

/// The bytes that accounts have granted.
pub open spec fn total_used(accounts: Seq<AccountModel>) -> nat
    decreases accounts.len(),
{
    if accounts.len() == 0 {
        0
    } else {
        total_used(accounts.drop_last()) + accounts.last().bytes(accounts.last().used)
    }
}

/// The sum of numbers of bytes.
pub open spec fn sum_of(used: Seq<u64>) -> nat
    decreases used.len(),
{
    if used.len() == 0 {
        0
    } else {
        sum_of(used.drop_last()) + used.last() as nat
    }
}

/// Sums up what accounts have granted, if the sum can be counted.
pub fn sum_used(used: &Vec<u64>) -> (total: Option<u64>)
    ensures
        match total {
            Some(total) => total == sum_of(used@),
            None => sum_of(used@) > u64::MAX,
        },
{
    let n: usize = used.len();
    let mut total: u64 = 0;
    let mut i: usize = 0;
    assert(used@.take(0) =~= Seq::empty());
    while i < n
        invariant
            n == used@.len(),
            i <= n,
            total == sum_of(used@.take(i as int)),
        decreases n - i,
    {
        assert(used@.take(i + 1).drop_last() =~= used@.take(i as int));
        match total.checked_add(used[i]) {
            Some(sum) => {
                total = sum;
            },
            None => {
                proof {
                    lemma_sum_grows(used@, i + 1, n as int);
                    assert(used@.take(n as int) =~= used@);
                }
                return None;
            },
        }
        i = i + 1;
    }
    assert(used@.take(n as int) =~= used@);
    Some(total)
}

proof fn lemma_sum_grows(used: Seq<u64>, i: int, j: int)
    requires
        0 <= i <= j <= used.len(),
    ensures
        sum_of(used.take(i)) <= sum_of(used.take(j)),
    decreases j - i,
{
    if i < j {
        lemma_sum_grows(used, i, j - 1);
        assert(used.take(j).drop_last() =~= used.take(j - 1));
    }
}

/// The gap between a resident size that was observed and what the accounts have granted.
pub fn gap_to(rss_bytes: u64, used_bytes: u64) -> (gap: u64)
    ensures
        gap == (if rss_bytes <= used_bytes {
            0
        } else {
            rss_bytes - used_bytes
        }),
{
    rss_bytes.saturating_sub(used_bytes)
}

/// Registry of accounts: a flat registry with aggregation on demand.
#[derive(Debug)]
pub struct MemoryLedger {
    root_budget_bytes: u64,
    accounts: Vec<Account>,
}

spec fn account_models(accounts: Seq<Account>) -> Seq<AccountModel> {
    accounts.map_values(|account: Account| account@)
}

impl View for MemoryLedger {
    type V = LedgerModel;

    closed spec fn view(&self) -> LedgerModel {
        LedgerModel {
            root_budget_bytes: self.root_budget_bytes,
            accounts: account_models(self.accounts@),
        }
    }
}

impl MemoryLedger {
    /// Every account is well-formed.
    pub closed spec fn wf(&self) -> bool {
        forall|i: int| 0 <= i < self.accounts@.len() ==> (#[trigger] self.accounts@[i]).wf()
    }

    /// A ledger without accounts.
    pub fn new(root_budget_bytes: u64) -> (ledger: MemoryLedger)
        ensures
            ledger.wf(),
            ledger@.root_budget_bytes == root_budget_bytes,
            ledger@.accounts == Seq::<AccountModel>::empty(),
    {
        let ledger = MemoryLedger { root_budget_bytes, accounts: Vec::new() };
        assert(ledger@.accounts =~= Seq::empty());
        ledger
    }

    /// The budget that all accounts share.
    pub fn root_budget_bytes(&self) -> (bytes: u64)
        ensures
            bytes == self@.root_budget_bytes,
    {
        self.root_budget_bytes
    }

    /// Registers a bounded account and returns its place in the ledger.
    pub fn register(
        &mut self,
        name: String,
        category: Category,
        limit_bytes: u64,
        granularity: PermitGranularity,
    ) -> (place: usize)
        requires
            old(self).wf(),
        ensures
            final(self).wf(),
            place == old(self)@.accounts.len(),
            final(self)@.root_budget_bytes == old(self)@.root_budget_bytes,
            final(self)@.accounts == old(self)@.accounts.push(
                (AccountModel {
                    name: name@,
                    category,
                    granularity,
                    target: granularity.permits(limit_bytes as nat),
                    effective: granularity.permits(limit_bytes as nat),
                    used: 0,
                    collecting: false,
                }),
            ),
    {
        let ghost before = self.accounts@;
        let place: usize = self.accounts.len();
        let account = Account::new(name, category, limit_bytes, granularity);
        self.accounts.push(account);
        proof {
            assert(account_models(self.accounts@) =~= account_models(before).push(account@));
            assert forall|i: int| 0 <= i < self.accounts@.len() implies (
            #[trigger] self.accounts@[i]).wf() by {
                if i < before.len() {
                    assert(self.accounts@[i] == before[i]);
                }
            }
        }
        place
    }

    /// The account at a place.
    pub fn account(&self, place: usize) -> (account: &Account)
        requires
            self.wf(),
            place < self@.accounts.len(),
        ensures
            account.wf(),
            account@ == self@.accounts[place as int],
    {
        &self.accounts[place]
    }

    /// The account at a place, to draw from or to adjust.
    pub fn account_mut(&mut self, place: usize) -> (account: &mut Account)
        requires
            old(self).wf(),
            place < old(self)@.accounts.len(),
        ensures
            account.wf(),
            account@ == old(self)@.accounts[place as int],
            final(account).wf() ==> final(self).wf(),
            final(self)@.root_budget_bytes == old(self)@.root_budget_bytes,
            final(self)@.accounts == old(self)@.accounts.update(place as int, final(account)@),
    {
        &mut self.accounts[place]
    }

    /// Sum of bytes granted across all accounts.
    pub fn total_used_bytes(&self) -> (bytes: u64)
        requires
            self.wf(),
            total_used(self@.accounts) <= u64::MAX,
        ensures
            bytes == total_used(self@.accounts),
    {
        let ghost models = self@.accounts;
        let n: usize = self.accounts.len();
        let mut used: Vec<u64> = Vec::new();
        let mut i: usize = 0;
        assert(models.take(0) =~= Seq::empty());
        while i < n
            invariant
                self.wf(),
                models == self@.accounts,
                n == models.len(),
                i <= n,
                used@.len() == i,
                sum_of(used@) == total_used(models.take(i as int)),
            decreases n - i,
        {
            let ghost before = used@;
            assert(models[i as int] == self.accounts@[i as int]@);
            used.push(self.accounts[i].used_bytes());
            proof {
                assert(models.take(i + 1).drop_last() =~= models.take(i as int));
                assert(used@.drop_last() =~= before);
            }
            i = i + 1;
        }
        assert(models.take(n as int) =~= models);
        match sum_used(&used) {
            Some(total) => total,
            None => 0,
        }
    }

    /// The unaccounted gap between an externally observed resident size and the ledger.
    pub fn unaccounted_bytes(&self, rss_bytes: u64) -> (bytes: u64)
        requires
            self.wf(),
            total_used(self@.accounts) <= u64::MAX,
        ensures
            bytes == (if rss_bytes <= total_used(self@.accounts) {
                0
            } else {
                rss_bytes - total_used(self@.accounts)
            }),
    {
        gap_to(rss_bytes, self.total_used_bytes())
    }

    /// Snapshot of all accounts.
    pub fn snapshot(&self) -> (snapshots: Vec<AccountSnapshot>)
        requires
            self.wf(),
        ensures
            snapshots@.len() == self@.accounts.len(),
            forall|i: int|
                0 <= i < snapshots@.len() ==> snapshot_of(
                    self@.accounts[i],
                    #[trigger] snapshots@[i],
                ),
    {
        let n: usize = self.accounts.len();
        let mut snapshots: Vec<AccountSnapshot> = Vec::new();
        let mut i: usize = 0;
        while i < n
            invariant
                self.wf(),
                n == self@.accounts.len(),
                i <= n,
                snapshots@.len() == i,
                forall|k: int|
                    0 <= k < i ==> snapshot_of(self@.accounts[k], #[trigger] snapshots@[k]),
            decreases n - i,
        {
            assert(self@.accounts[i as int] == self.accounts@[i as int]@);
            snapshots.push(self.accounts[i].snapshot());
            i = i + 1;
        }
        snapshots
    }
}

/// Changing the limit never revokes granted memory, and the account keeps its promise: what is
/// granted stays within what it embodies. A higher limit takes effect at once; a lower one does as
/// soon as it is no less than what is granted.
pub proof fn lemma_limit_never_revokes(account: AccountModel, target: nat)
    requires
        account.valid(),
        target <= account_limit(),
    ensures
        account.limited(target).valid(),
        account.limited(target).used == account.used,
        account.limited(target).effective >= target,
        account.limited(target).effective == target <==> account.used <= target,
        account.effective <= target ==> account.limited(target).effective == target,
{
}

/// Settling a chunk makes progress towards the limit and never goes below it, and takes nothing
/// from the grants other than the chunk.
pub proof fn lemma_chunk_makes_progress(account: AccountModel, chunk: nat)
    requires
        account.valid(),
        0 < chunk <= account.used,
    ensures
        account.without_chunk(chunk).valid(),
        account.without_chunk(chunk).used == account.used - chunk,
        account.without_chunk(chunk).target == account.target,
        account.effective > account.target ==> account.target <= account.without_chunk(
            chunk,
        ).effective < account.effective,
        account.effective <= account.target ==> account.without_chunk(chunk).effective
            == account.effective,
{
}

/// A grant that is returned leaves the account as it was, and neither step exceeds the capacity.
pub proof fn lemma_grant_is_undone(account: AccountModel, permits: nat)
    requires
        account.valid(),
        permits <= account.idle(),
    ensures
        account.granted(permits).valid(),
        account.granted(permits).returned(permits) == account,
{
}

} // verus!
