//! A memory pool that draws from a ledger account.
//!
//! Account permits are coarse-grained, so the pool tracks the exact reserved bytes itself and keeps
//! its guard at exactly the permits that the reserved bytes take, minus the overdraft: sub-permit
//! requests aggregate into shared permits instead of charging one permit per call, and an
//! aggregated shrink releases exactly the permits the preceding grows acquired.
//!
//! A grow that cannot fail records the portion the account cannot back as an overdraft, which the
//! pool reports as reserved and writes off before it returns permits. The account itself never
//! over-grants.
use vstd::prelude::*;
use vstd::string::*;

use crate::ledger::{
    account_limit, lemma_whole_permits, min_of, Account, AccountGuard, AccountModel,
    PermitGranularity,
};
use crate::text::push_text;

verus! {

/// Why a reservation could not be grown.
#[derive(Debug)]
pub struct ResourcesExhausted {
    /// The bytes that were asked for.
    pub additional: u64,
    /// The name of the consumer that asked.
    pub consumer: String,
    /// The bytes the reservation has already.
    pub allocated: u64,
    /// The name of the account.
    pub account: String,
    /// The bytes granted by the account.
    pub used: u64,
    /// The limit of the account in bytes.
    pub limit: u64,
}

/// A number of bytes as `human_readable_size` presents it.
pub uninterp spec fn size_text(size: usize) -> Seq<char>;

/// Calls `datafusion::execution::memory_pool::human_readable_size`. The contract gives the result a
/// name: the text is a function of the size alone. How the size is rounded and which unit it gets is
/// left unsaid.
#[verifier::external_body]
fn show_size(size: usize) -> (text: String)
    ensures
        text@ == size_text(size),
{
    datafusion::execution::memory_pool::human_readable_size(size)
}

/// The sentence that says why a reservation could not be grown, from sizes that are text already.
pub open spec fn exhausted_text(
    additional: Seq<char>,
    consumer: Seq<char>,
    allocated: Seq<char>,
    account: Seq<char>,
    used: Seq<char>,
    limit: Seq<char>,
) -> Seq<char> {
    "Failed to allocate additional "@ + additional + " for "@ + consumer + " with "@ + allocated
        + " already allocated for this reservation - memory account "@ + account + " has "@ + used
        + " used of "@ + limit + " limit"@
}

/// Writes the sentence that says why a reservation could not be grown, from sizes that are text
/// already.
pub fn exhausted_sentence(
    additional: &String,
    consumer: &String,
    allocated: &String,
    account: &String,
    used: &String,
    limit: &String,
) -> (text: String)
    ensures
        text@ == exhausted_text(additional@, consumer@, allocated@, account@, used@, limit@),
{
    let mut text = String::new();
    push_text(&mut text, "Failed to allocate additional ");
    push_text(&mut text, additional.as_str());
    push_text(&mut text, " for ");
    push_text(&mut text, consumer.as_str());
    push_text(&mut text, " with ");
    push_text(&mut text, allocated.as_str());
    push_text(&mut text, " already allocated for this reservation - memory account ");
    push_text(&mut text, account.as_str());
    push_text(&mut text, " has ");
    push_text(&mut text, used.as_str());
    push_text(&mut text, " used of ");
    push_text(&mut text, limit.as_str());
    push_text(&mut text, " limit");
    assert(text@ =~= exhausted_text(
        additional@,
        consumer@,
        allocated@,
        account@,
        used@,
        limit@,
    ));
    text
}

impl ResourcesExhausted {
    /// The sentence that describes the error.
    pub fn message(&self) -> (text: String)
        ensures
            text@ == exhausted_text(
                size_text(self.additional as usize),
                self.consumer@,
                size_text(self.allocated as usize),
                self.account@,
                size_text(self.used as usize),
                size_text(self.limit as usize),
            ),
    {
        exhausted_sentence(
            &show_size(self.additional as usize),
            &self.consumer,
            &show_size(self.allocated as usize),
            &self.account,
            &show_size(self.used as usize),
            &show_size(self.limit as usize),
        )
    }
}

/// A memory pool backed by an account.
#[derive(Debug)]
pub struct LedgerMemoryPool {
    /// Permit granularity of the account.
    granularity: PermitGranularity,
    /// The pool's grant on the account.
    guard: AccountGuard,
    /// Exact bytes reserved, before rounding to permits.
    reserved_bytes: u64,
    /// Bytes that were charged but that the account could not back.
    overdraft: u64,
}

/// What a pool holds.
pub struct PoolModel {
    pub granularity: PermitGranularity,
    /// The permits granted by the account.
    pub permits: nat,
    /// The exact bytes reserved.
    pub reserved: nat,
    /// The permits charged that the account could not back.
    pub overdraft: nat,
}

impl View for LedgerMemoryPool {
    type V = PoolModel;

    closed spec fn view(&self) -> PoolModel {
        PoolModel {
            granularity: self.granularity,
            permits: self.guard@,
            reserved: self.reserved_bytes as nat,
            overdraft: (self.overdraft as int / self.granularity.size() as int) as nat,
        }
    }
}

impl PoolModel {
    /// The permits and the overdraft together are what the reserved bytes take.
    pub open spec fn balanced(self) -> bool {
        self.permits + self.overdraft == self.granularity.permits(self.reserved)
    }

    /// The permits that are missing once `reserved` bytes are to be covered.
    pub open spec fn missing(self, reserved: nat) -> nat {
        let needed = self.granularity.permits(reserved);
        if needed <= self.permits + self.overdraft {
            0
        } else {
            (needed - self.permits - self.overdraft) as nat
        }
    }

    /// Whether the account can back what is missing: it is within the limit and available.
    pub open spec fn backed(self, account: AccountModel, missing: nat) -> bool {
        missing == 0 || (self.permits + missing <= account.target && missing <= account.idle())
    }

    /// The pool and the account after the pool grew to `reserved` bytes with permits.
    pub open spec fn covered(self, reserved: nat) -> PoolModel {
        PoolModel { permits: self.permits + self.missing(reserved), reserved, ..self }
    }

    /// The pool after it grew to `reserved` bytes with an overdraft.
    pub open spec fn overdrawn(self, reserved: nat) -> PoolModel {
        PoolModel { overdraft: self.overdraft + self.missing(reserved), reserved, ..self }
    }

    /// The reserved bytes after `bytes` were given back.
    pub open spec fn less(self, bytes: nat) -> nat {
        if self.reserved <= bytes {
            0
        } else {
            (self.reserved - bytes) as nat
        }
    }

    /// The permits that are no longer needed for `reserved` bytes.
    pub open spec fn surplus(self, reserved: nat) -> nat {
        let needed = self.granularity.permits(reserved);
        if self.permits + self.overdraft <= needed {
            0
        } else {
            (self.permits + self.overdraft - needed) as nat
        }
    }

    /// The permits that go back to the account: what the overdraft does not take.
    pub open spec fn given_back(self, reserved: nat) -> nat {
        (self.surplus(reserved) - min_of(self.surplus(reserved), self.overdraft)) as nat
    }

    /// The pool after it shrank to `reserved` bytes: the overdraft is written off first.
    pub open spec fn shrunk(self, reserved: nat) -> PoolModel {
        PoolModel {
            overdraft: (self.overdraft - min_of(self.surplus(reserved), self.overdraft)) as nat,
            permits: (self.permits - self.given_back(reserved)) as nat,
            reserved,
            ..self
        }
    }
}

proof fn lemma_scaled(granularity: PermitGranularity, a: nat, b: nat)
    ensures
        a <= b <==> a * granularity.size() <= b * granularity.size(),
        a == b <==> a * granularity.size() == b * granularity.size(),
        (a + b) * granularity.size() == a * granularity.size() + b * granularity.size(),
        a <= b ==> (b - a) as nat * granularity.size() == b * granularity.size() - a
            * granularity.size(),
        (a * granularity.size()) as int / granularity.size() as int == a,
{
    let size = granularity.size() as int;
    assert(a <= b <==> a * size <= b * size) by (nonlinear_arith)
        requires
            0 < size,
    ;
    assert((a + b) * size == a * size + b * size) by (nonlinear_arith);
    assert((b - a) * size == b * size - a * size) by (nonlinear_arith);
    assert((a * size) / size == a) by (nonlinear_arith)
        requires
            0 < size,
    ;
}

impl LedgerMemoryPool {
    /// The pool belongs to the account: its grant is part of what the account granted, in the same
    /// granularity, and the overdraft is made of whole permits.
    pub closed spec fn draws_from(&self, account: AccountModel) -> bool {
        &&& self.guard.belongs_to(account)
        &&& self.granularity == account.granularity
        &&& self.overdraft == self@.overdraft * self.granularity.size()
        &&& self@.balanced()
    }

    /// What a pool that draws from an account can be relied on for.
    pub proof fn lemma_draws(&self, account: AccountModel, other: AccountModel)
        requires
            self.draws_from(account),
        ensures
            self@.balanced(),
            self@.granularity == account.granularity,
            self@.permits <= account.used,
            other.granularity == account.granularity && self@.permits <= other.used
                ==> self.draws_from(other),
    {
        self.guard.lemma_belongs(account, other);
    }

    /// Creates a pool drawing from `account`. `granularity` must be the permit granularity the
    /// account was created with.
    pub fn new(account: &mut Account, granularity: PermitGranularity) -> (pool: LedgerMemoryPool)
        requires
            old(account).wf(),
            granularity == old(account)@.granularity,
        ensures
            final(account).wf(),
            final(account)@ == old(account)@,
            pool.draws_from(final(account)@),
            pool@ == (PoolModel {
                granularity: old(account)@.granularity,
                permits: 0,
                reserved: 0,
                overdraft: 0,
            }),
    {
        proof {
            account.lemma_wf_is_valid();
            lemma_whole_permits(account@.granularity, 0);
        }
        let guard = match account.try_acquire(0) {
            Some(guard) => guard,
            None => {
                assert(false);
                AccountGuard::none(granularity)
            },
        };
        assert(old(account)@.granted(0) == old(account)@);
        LedgerMemoryPool { granularity, guard, reserved_bytes: 0, overdraft: 0 }
    }

    /// Rounds `bytes` up to whole permits of the account's granularity.
    fn round_up_to_permits(&self, bytes: u64) -> (rounded: u64)
        ensures
            rounded == self@.granularity.permits(bytes as nat) * self@.granularity.size(),
            rounded < u64::MAX,
    {
        self.granularity.permits_to_bytes(self.granularity.bytes_to_permits(bytes))
    }

    /// The bytes charged to the account plus the overdraft.
    fn covered_bytes(&self, account: Ghost<AccountModel>) -> (bytes: u64)
        requires
            self.draws_from(account@),
        ensures
            bytes == (self@.permits + self@.overdraft) * self@.granularity.size(),
            bytes == self@.granularity.permits(self@.reserved) * self@.granularity.size(),
            self.overdraft <= bytes,
    {
        let rounded: u64 = self.round_up_to_permits(self.reserved_bytes);
        let granted: u64 = self.guard.granted_bytes();
        proof {
            lemma_scaled(self.granularity, self@.permits, self@.overdraft);
            assert(granted == account@.bytes(self.guard@));
            assert(granted + self.overdraft == rounded);
        }
        granted + self.overdraft
    }

    /// Grows the guard so that guard plus overdraft cover `new_reserved` bytes rounded up to whole
    /// permits. On failure returns the missing bytes and leaves the pool untouched.
    fn try_cover(&mut self, account: &mut Account, new_reserved: u64) -> (result: Result<(), u64>)
        requires
            old(account).wf(),
            old(self).draws_from(old(account)@),
            old(self)@.reserved <= new_reserved,
        ensures
            final(account).wf(),
            final(self).granularity == old(self).granularity,
            final(self).reserved_bytes == old(self).reserved_bytes,
            final(self).overdraft == old(self).overdraft,
            final(self).guard.belongs_to(final(account)@),
            ({
                let missing = old(self)@.missing(new_reserved as nat);
                if old(self)@.backed(old(account)@, missing) {
                    &&& result is Ok
                    &&& final(self).guard@ == old(self).guard@ + missing
                    &&& final(account)@ == old(account)@.granted(missing)
                } else {
                    &&& result matches Err(bytes) && bytes == missing
                        * old(self)@.granularity.size()
                    &&& final(self).guard@ == old(self).guard@
                    &&& final(account)@ == old(account)@
                }
            }),
    {
        let ghost missing = self@.missing(new_reserved as nat);
        let ghost size = self@.granularity.size();
        let needed: u64 = self.round_up_to_permits(new_reserved);
        let covered: u64 = self.covered_bytes(Ghost(account@));
        proof {
            account.lemma_wf_is_valid();
            self.guard.lemma_belongs(account@, account@);
            let want = self@.granularity.permits(new_reserved as nat);
            let have = self@.permits + self@.overdraft;
            lemma_scaled(self.granularity, have, want);
            lemma_scaled(self.granularity, want, have);
            lemma_scaled(self.granularity, self@.permits, missing);
            lemma_scaled(self.granularity, (self@.permits + missing) as nat, account@.target);
            assert(account@.granted(0) == account@);
        }
        if needed <= covered {
            return Ok(());
        }
        let bytes: u64 = needed - covered;
        proof {
            assert(bytes == missing * size);
            assert(missing <= account_limit());
            lemma_whole_permits(self.granularity, missing);
            assert(account@.permits(bytes) == missing);
            assert(account@.bytes(self.guard@) + bytes == (self@.permits + missing) * size);
            assert(account@.bytes(account@.target) == account@.target * size);
        }
        if self.guard.try_grow(account, bytes) {
            Ok(())
        } else {
            Err(bytes)
        }
    }

    /// Charges `additional` bytes, whether or not the account can back them: what it cannot back
    /// becomes an overdraft.
    pub fn grow(&mut self, account: &mut Account, additional: u64)
        requires
            old(account).wf(),
            old(self).draws_from(old(account)@),
            old(self)@.reserved + additional <= u64::MAX,
        ensures
            final(account).wf(),
            final(self).draws_from(final(account)@),
            ({
                let reserved = (old(self)@.reserved + additional) as nat;
                let missing = old(self)@.missing(reserved);
                if old(self)@.backed(old(account)@, missing) {
                    &&& final(self)@ == old(self)@.covered(reserved)
                    &&& final(account)@ == old(account)@.granted(missing)
                } else {
                    &&& final(self)@ == old(self)@.overdrawn(reserved)
                    &&& final(account)@ == old(account)@
                }
            }),
    {
        let new_reserved: u64 = self.reserved_bytes + additional;
        let ghost before = self@;
        let ghost size = before.granularity.size();
        let ghost missing = before.missing(new_reserved as nat);
        proof {
            lemma_permits_monotone(before.granularity, before.reserved, new_reserved as nat);
            lemma_scaled(before.granularity, before.overdraft, missing);
            lemma_scaled(before.granularity, (before.overdraft + missing) as nat, 0);
            lemma_scaled(
                before.granularity,
                (before.overdraft + missing) as nat,
                before.granularity.permits(new_reserved as nat),
            );
        }
        let bound: u64 = self.round_up_to_permits(new_reserved);
        match self.try_cover(account, new_reserved) {
            Ok(()) => {},
            Err(bytes) => {
                assert(self.overdraft + bytes <= bound);
                self.overdraft = self.overdraft + bytes;
            },
        }
        self.reserved_bytes = new_reserved;
    }

    /// Charges `additional` bytes if the account can back them. Otherwise nothing is charged, and
    /// the error names the consumer and the account's current usage and limit.
    pub fn try_grow(
        &mut self,
        account: &mut Account,
        consumer: &String,
        allocated: u64,
        additional: u64,
    ) -> (result: Result<(), ResourcesExhausted>)
        requires
            old(account).wf(),
            old(self).draws_from(old(account)@),
            old(self)@.reserved + additional <= u64::MAX,
        ensures
            final(account).wf(),
            final(self).draws_from(final(account)@),
            ({
                let reserved = (old(self)@.reserved + additional) as nat;
                let missing = old(self)@.missing(reserved);
                if old(self)@.backed(old(account)@, missing) {
                    &&& result is Ok
                    &&& final(self)@ == old(self)@.covered(reserved)
                    &&& final(account)@ == old(account)@.granted(missing)
                } else {
                    &&& result matches Err(error)
                    &&& error.additional == additional
                    &&& error.consumer@ == consumer@
                    &&& error.allocated == allocated
                    &&& error.account@ == old(account)@.name
                    &&& error.used == old(account)@.bytes(old(account)@.used)
                    &&& error.limit == old(account)@.bytes(old(account)@.target)
                    &&& final(self)@ == old(self)@
                    &&& final(account)@ == old(account)@
                }
            }),
    {
        let new_reserved: u64 = self.reserved_bytes + additional;
        let ghost before = self@;
        proof {
            lemma_permits_monotone(before.granularity, before.reserved, new_reserved as nat);
        }
        if self.try_cover(account, new_reserved).is_err() {
            return Err(
                ResourcesExhausted {
                    additional,
                    consumer: consumer.clone(),
                    allocated,
                    account: account.name().to_owned(),
                    used: account.used_bytes(),
                    limit: account.target_limit_bytes(),
                },
            );
        }
        self.reserved_bytes = new_reserved;
        Ok(())
    }

    /// Gives `bytes` back. The overdraft is written off first; only the remainder returns permits
    /// to the account.
    pub fn shrink(&mut self, account: &mut Account, bytes: u64)
        requires
            old(account).wf(),
            old(self).draws_from(old(account)@),
        ensures
            final(account).wf(),
            final(self).draws_from(final(account)@),
            ({
                let reserved = old(self)@.less(bytes as nat);
                &&& final(self)@ == old(self)@.shrunk(reserved)
                &&& final(account)@ == old(account)@.returned(old(self)@.given_back(reserved))
            }),
    {
        let ghost before = self@;
        let ghost size = before.granularity.size();
        let covered: u64 = self.covered_bytes(Ghost(account@));
        let new_reserved: u64 = self.reserved_bytes.saturating_sub(bytes);
        let needed: u64 = self.round_up_to_permits(new_reserved);
        let release: u64 = covered.saturating_sub(needed);
        let ghost reserved = new_reserved as nat;
        let ghost want = before.granularity.permits(reserved);
        let ghost have = (before.permits + before.overdraft) as nat;
        let ghost surplus = before.surplus(reserved);
        proof {
            lemma_permits_monotone(before.granularity, reserved, before.reserved);
            lemma_scaled(before.granularity, want, have);
            lemma_scaled(before.granularity, surplus, before.overdraft);
            lemma_scaled(before.granularity, before.overdraft, surplus);
            assert(release == surplus * size);
        }
        let written_off: u64 = if release < self.overdraft {
            release
        } else {
            self.overdraft
        };
        let ghost off = min_of(surplus, before.overdraft);
        let ghost back = before.given_back(reserved);
        proof {
            assert(written_off == off * size);
            lemma_scaled(before.granularity, off, before.overdraft);
            lemma_scaled(before.granularity, off, surplus);
            lemma_scaled(before.granularity, back, 0);
            lemma_scaled(before.granularity, (before.overdraft - off) as nat, 0);
        }
        self.overdraft = self.overdraft - written_off;
        let returned: u64 = release - written_off;
        self.reserved_bytes = new_reserved;
        assert(returned == back * size);
        if returned > 0 {
            // A whole number of permits within the grant, so exactly that many are released.
            let released: u64 = self.guard.shrink(account, returned);
        } else {
            proof {
                lemma_scaled(before.granularity, back, 0);
                assert(account@.returned(0) == account@);
            }
        }
    }

    /// The bytes charged to the account plus any overdraft.
    pub fn reserved(&self, account: &Account) -> (bytes: u64)
        requires
            self.draws_from(account@),
        ensures
            bytes == self@.granularity.permits(self@.reserved) * self@.granularity.size(),
            bytes == (self@.permits + self@.overdraft) * self@.granularity.size(),
    {
        self.covered_bytes(Ghost(account@))
    }

    /// The overdraft in bytes.
    pub fn overdraft_bytes(&self, account: &Account) -> (bytes: u64)
        requires
            self.draws_from(account@),
        ensures
            bytes == self@.overdraft * self@.granularity.size(),
    {
        self.overdraft
    }

    /// The limit of the account that the pool draws from, in bytes.
    pub fn memory_limit(&self, account: &Account) -> (bytes: u64)
        requires
            self.draws_from(account@),
        ensures
            bytes == account@.bytes(account@.target),
    {
        account.target_limit_bytes()
    }
}

/// More bytes never take fewer permits.
pub proof fn lemma_permits_monotone(granularity: PermitGranularity, a: nat, b: nat)
    requires
        a <= b,
    ensures
        granularity.permits(a) <= granularity.permits(b),
{
    let size = granularity.size() as int;
    assert((a + size - 1) / size <= (b + size - 1) / size) by (nonlinear_arith)
        requires
            a <= b,
            0 < size,
    ;
}

/// Growing and giving the same bytes back restores the books: what a grow acquired, an equal shrink
/// releases, whether the account backed the grow or the pool overdrew. A pool that is overdrawn
/// already writes off its overdraft before it returns permits, so a backed grow is undone exactly
/// while there is no overdraft.
pub proof fn lemma_shrink_undoes_grow(pool: PoolModel, bytes: nat)
    requires
        pool.balanced(),
    ensures
        ({
            let reserved = pool.reserved + bytes;
            let overdrawn = pool.overdrawn(reserved);
            let covered = pool.covered(reserved);
            &&& overdrawn.balanced() && overdrawn.shrunk(overdrawn.less(bytes)) == pool
            &&& covered.balanced()
            &&& pool.overdraft == 0 ==> covered.shrunk(covered.less(bytes)) == pool
                && covered.given_back(covered.less(bytes)) == pool.missing(reserved)
        }),
{
    let reserved = pool.reserved + bytes;
    lemma_permits_monotone(pool.granularity, pool.reserved, reserved);
}

/// A pool whose reservations are all given back holds nothing of the account and owes nothing.
pub proof fn lemma_empty_pool_holds_nothing(pool: PoolModel)
    requires
        pool.balanced(),
    ensures
        pool.shrunk(0).balanced(),
        pool.shrunk(0).permits == 0,
        pool.shrunk(0).overdraft == 0,
        pool.given_back(0) == pool.permits,
{
    lemma_whole_permits(pool.granularity, 0);
}

/// A shrink keeps the books balanced and never returns more than the pool was granted.
pub proof fn lemma_shrink_keeps_balance(pool: PoolModel, bytes: nat)
    requires
        pool.balanced(),
    ensures
        pool.shrunk(pool.less(bytes)).balanced(),
        pool.given_back(pool.less(bytes)) <= pool.permits,
        pool.overdraft > 0 && pool.given_back(pool.less(bytes)) > 0 ==> pool.shrunk(
            pool.less(bytes),
        ).overdraft == 0,
{
    lemma_permits_monotone(pool.granularity, pool.less(bytes), pool.reserved);
}

} // verus!
