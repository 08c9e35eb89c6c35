//! What accounts and pools grant, in bytes.
use vstd::prelude::*;

use crate::ledger::{account_limit, sum_of, total_used, AccountModel, PermitGranularity};
use crate::ledger_pool::{lemma_permits_monotone, PoolModel};

verus! {

/// The number of bytes of one permit.
pub open spec fn unit(granularity: PermitGranularity) -> nat {
    match granularity {
        PermitGranularity::Kilobyte => 1024,
        PermitGranularity::Megabyte => 1_048_576,
    }
}

/// No account holds more permits than a semaphore can, nor more than 32 bits can count.
pub proof fn lemma_account_limit()
    ensures
        account_limit() <= usize::MAX / 8,
        account_limit() <= 4_294_967_295,
        account_limit() == usize::MAX / 8 || account_limit() == 4_294_967_295,
{
}

/// The permits of some bytes cover them and not one more than that, as far as an account can hold
/// them. Beyond that they are all that an account can hold.
pub proof fn lemma_permits_cover(granularity: PermitGranularity, bytes: nat)
    ensures
        granularity.size() == unit(granularity),
        bytes <= account_limit() * unit(granularity) ==> bytes <= granularity.permits(bytes)
            * unit(granularity) && granularity.permits(bytes) * unit(granularity) < bytes + unit(
            granularity,
        ),
        bytes > account_limit() * unit(granularity) ==> granularity.permits(bytes)
            == account_limit(),
{
    let size = unit(granularity) as int;
    let n = (bytes + size - 1) / size;
    let cap = account_limit() as int;
    assert(n * size <= bytes + size - 1 < n * size + size && 0 <= n) by (nonlinear_arith)
        requires
            n == (bytes + size - 1) / size,
            0 < size,
            0 <= bytes,
    ;
    if bytes <= cap * size {
        assert(n <= cap) by (nonlinear_arith)
            requires
                n * size <= bytes + size - 1,
                bytes <= cap * size,
                0 < size,
        ;
    } else {
        assert(n >= cap) by (nonlinear_arith)
            requires
                bytes + size - 1 < n * size + size,
                bytes > cap * size,
                0 < size,
        ;
    }
}

/// A number of permits is enough for some bytes exactly when its bytes are at least as many.
proof fn lemma_enough(granularity: PermitGranularity, bytes: nat, permits: nat)
    requires
        bytes <= account_limit() * unit(granularity),
    ensures
        granularity.permits(bytes) <= permits <==> bytes <= permits * unit(granularity),
{
    lemma_permits_cover(granularity, bytes);
    let size = unit(granularity) as int;
    let n = granularity.permits(bytes) as int;
    let p = permits as int;
    if n <= p {
        assert(n * size <= p * size) by (nonlinear_arith)
            requires
                n <= p,
                0 < size,
        ;
    } else {
        assert(p * size <= n * size - size) by (nonlinear_arith)
            requires
                n >= p + 1,
                0 < size,
        ;
    }
}

/// A request is granted exactly when its bytes are within the limit of the account and within what
/// is not granted yet.
pub proof fn lemma_granted_iff(account: AccountModel, bytes: u64)
    requires
        account.valid(),
    ensures
        account.grants(bytes) <==> bytes <= account.target * unit(account.granularity) && bytes <= (
        account.effective - account.used) * unit(account.granularity),
{
    let size = unit(account.granularity) as int;
    if bytes <= account.target * size {
        assert(account.target * size <= account_limit() * size) by (nonlinear_arith)
            requires
                account.target <= account_limit(),
                0 < size,
        ;
        lemma_enough(
            account.granularity,
            bytes as nat,
            (account.effective - account.used) as nat,
        );
    }
}

/// A grant takes the permits of the request and nothing else changes; giving it back is the
/// reverse.
pub proof fn lemma_grant_takes_permits(account: AccountModel, bytes: u64)
    requires
        account.valid(),
        account.grants(bytes),
    ensures
        ({
            let permits = account.permits(bytes);
            let after = account.granted(permits);
            &&& bytes <= permits * unit(account.granularity) < bytes + unit(account.granularity)
            &&& after.used == account.used + permits
            &&& after.used <= after.effective
            &&& after == (AccountModel { used: after.used, ..account })
            &&& after.returned(permits) == account
        }),
{
    let size = unit(account.granularity) as int;
    assert(account.target * size <= account_limit() * size) by (nonlinear_arith)
        requires
            account.target <= account_limit(),
            0 < size,
    ;
    lemma_permits_cover(account.granularity, bytes as nat);
}

/// Changing the limit sets the limit and changes the capacity only as far as nothing is revoked:
/// it is the limit, or what is granted where that is more.
pub proof fn lemma_limit_is_set(account: AccountModel, target: nat)
    ensures
        ({
            let after = account.limited(target);
            &&& after.target == target
            &&& account.used <= target ==> after.effective == target
            &&& account.used >= target ==> after.effective == account.used
            &&& after == (AccountModel {
                target: after.target,
                effective: after.effective,
                ..account
            })
        }),
{
}

/// Settling a chunk takes all of it out of the capacity, but never more than it takes to reach the
/// limit; what is not needed can be granted again.
pub proof fn lemma_chunk_is_settled(account: AccountModel, chunk: nat)
    requires
        account.valid(),
        chunk <= account.used,
    ensures
        ({
            let after = account.without_chunk(chunk);
            &&& after.used == account.used - chunk
            &&& account.target + chunk <= account.effective ==> after.effective
                == account.effective - chunk
            &&& account.target + chunk > account.effective ==> after.effective == account.target
            &&& after == (AccountModel {
                used: after.used,
                effective: after.effective,
                ..account
            })
        }),
{
}

/// What the accounts have granted is the sum over all of them.
pub proof fn lemma_total_adds_up(accounts: Seq<AccountModel>, account: AccountModel)
    ensures
        total_used(Seq::<AccountModel>::empty()) == 0,
        total_used(accounts.push(account)) == total_used(accounts) + account.used * unit(
            account.granularity,
        ),
{
    assert(accounts.push(account).drop_last() =~= accounts);
}

/// A sum is the sum over all numbers.
pub proof fn lemma_sum_adds_up(used: Seq<u64>, more: u64)
    ensures
        sum_of(Seq::<u64>::empty()) == 0,
        sum_of(used.push(more)) == sum_of(used) + more,
{
    assert(used.push(more).drop_last() =~= used);
}

/// A pool can be grown within its account exactly when the bytes that would be reserved fit: into
/// what the pool covers already, or, together with what was granted to the pool, into the limit of
/// the account, where the account has that much left.
pub proof fn lemma_growth_is_backed_iff(pool: PoolModel, account: AccountModel, reserved: nat)
    requires
        pool.balanced(),
        account.valid(),
        pool.granularity == account.granularity,
        pool.reserved <= reserved,
        reserved <= account_limit() * unit(pool.granularity),
    ensures
        ({
            let size = unit(pool.granularity);
            pool.backed(account, pool.missing(reserved)) <==> {
                ||| reserved <= (pool.permits + pool.overdraft) * size
                ||| {
                    &&& reserved <= (account.target + pool.overdraft) * size
                    &&& reserved <= (pool.permits + pool.overdraft + account.effective
                        - account.used) * size
                }
            }
        }),
{
    let idle = (account.effective - account.used) as nat;
    let held = (pool.permits + pool.overdraft) as nat;
    lemma_enough(pool.granularity, reserved, held);
    lemma_enough(pool.granularity, reserved, (account.target + pool.overdraft) as nat);
    lemma_enough(pool.granularity, reserved, (held + idle) as nat);
}

/// A pool that grows covers exactly the permits of what it reserves then: from the account when
/// the account backs it, and as an overdraft otherwise. The other part does not change.
pub proof fn lemma_growth_is_covered(pool: PoolModel, reserved: nat)
    requires
        pool.balanced(),
        pool.reserved <= reserved,
    ensures
        ({
            let covered = pool.covered(reserved);
            let overdrawn = pool.overdrawn(reserved);
            let needed = pool.granularity.permits(reserved);
            &&& covered.reserved == reserved
            &&& covered.overdraft == pool.overdraft
            &&& covered.permits == needed - pool.overdraft
            &&& pool.permits <= covered.permits
            &&& covered.granularity == pool.granularity
            &&& overdrawn.reserved == reserved
            &&& overdrawn.permits == pool.permits
            &&& overdrawn.overdraft == needed - pool.permits
            &&& pool.overdraft <= overdrawn.overdraft
            &&& overdrawn.granularity == pool.granularity
            &&& pool.missing(reserved) == needed - pool.permits - pool.overdraft
        }),
{
    lemma_permits_monotone(pool.granularity, pool.reserved, reserved);
}

/// A pool that gives bytes back reserves that much less, and nothing at least. It covers exactly
/// the permits of what is left: the overdraft goes first, and only when it is gone does the
/// account get permits back.
pub proof fn lemma_shrink_writes_off_first(pool: PoolModel, bytes: nat)
    requires
        pool.balanced(),
    ensures
        ({
            let after = pool.shrunk(pool.less(bytes));
            let needed = pool.granularity.permits(after.reserved);
            &&& bytes <= pool.reserved ==> after.reserved == pool.reserved - bytes
            &&& bytes >= pool.reserved ==> after.reserved == 0
            &&& after.permits + after.overdraft == needed
            &&& needed >= pool.permits ==> after.permits == pool.permits
            &&& needed <= pool.permits ==> after.permits == needed && after.overdraft == 0
            &&& pool.given_back(pool.less(bytes)) == pool.permits - after.permits
            &&& after.granularity == pool.granularity
        }),
{
    lemma_permits_monotone(pool.granularity, pool.less(bytes), pool.reserved);
}

/// A guard can grow exactly when what it was granted and the bytes it asks for are within the limit
/// of the account, and the bytes are within what is not granted yet.
pub proof fn lemma_grows_iff(account: AccountModel, granted: nat, bytes: u64)
    requires
        account.valid(),
        granted <= account.used,
    ensures
        account.grows(granted, bytes) <==> granted * unit(account.granularity) + bytes
            <= account.target * unit(account.granularity) && bytes <= (account.effective
            - account.used) * unit(account.granularity),
{
    let size = unit(account.granularity) as int;
    assert(0 <= granted * size) by (nonlinear_arith)
        requires
            0 <= granted,
            0 < size,
    ;
    if bytes <= account.target * size {
        assert(account.target * size <= account_limit() * size) by (nonlinear_arith)
            requires
                account.target <= account_limit(),
                0 < size,
        ;
        lemma_enough(
            account.granularity,
            bytes as nat,
            (account.effective - account.used) as nat,
        );
    }
}

/// A guard that shrinks returns as many whole permits as the bytes hold, but no more than it was
/// granted.
pub proof fn lemma_shed_permits(account: AccountModel, granted: nat, bytes: u64)
    ensures
        ({
            let permits = account.shed(granted, bytes);
            let size = unit(account.granularity);
            &&& permits <= granted
            &&& permits * size <= bytes
            &&& permits == granted || bytes < (permits + 1) * size
        }),
{
    let size = unit(account.granularity) as int;
    let whole = bytes as int / size;
    assert(whole * size <= bytes < (whole + 1) * size) by (nonlinear_arith)
        requires
            whole == bytes as int / size,
            0 < size,
    ;
    let permits = account.shed(granted, bytes) as int;
    assert(permits * size <= whole * size) by (nonlinear_arith)
        requires
            permits <= whole,
            0 < size,
    ;
}

/// The shrink collector waits for a chunk exactly while more is granted than the limit: for what is
/// missing, but for sixty-four permits at most.
pub proof fn lemma_chunk_is_sized(account: AccountModel)
    ensures
        account.next_chunk() is None <==> account.used <= account.target,
        account.next_chunk() matches Some(chunk) ==> {
            &&& account.used - account.target >= 64 ==> chunk == 64
            &&& account.used - account.target <= 64 ==> chunk == account.used - account.target
        },
{
}

} // verus!
