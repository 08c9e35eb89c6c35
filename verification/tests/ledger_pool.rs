use greptime::ledger::{Account, Category, PermitGranularity};
use greptime::ledger_pool::{LedgerMemoryPool, ResourcesExhausted};

const KB: u64 = 1024;

fn pool_with_limit(limit_kb: u64) -> (Account, LedgerMemoryPool) {
    let mut account = Account::new(
        "query/engine".to_string(),
        Category::Query,
        limit_kb * KB,
        PermitGranularity::Kilobyte,
    );
    let pool = LedgerMemoryPool::new(&mut account, PermitGranularity::Kilobyte);
    (account, pool)
}

/// A consumer of the pool, which knows how much it has reserved.
struct Reservation {
    consumer: String,
    size: u64,
}

impl Reservation {
    fn new(consumer: &str) -> Self {
        Self {
            consumer: consumer.to_string(),
            size: 0,
        }
    }

    fn try_grow(
        &mut self,
        pool: &mut LedgerMemoryPool,
        account: &mut Account,
        additional: u64,
    ) -> Result<(), ResourcesExhausted> {
        pool.try_grow(account, &self.consumer, self.size, additional)?;
        self.size += additional;
        Ok(())
    }

    fn grow(&mut self, pool: &mut LedgerMemoryPool, account: &mut Account, additional: u64) {
        pool.grow(account, additional);
        self.size += additional;
    }

    fn shrink(&mut self, pool: &mut LedgerMemoryPool, account: &mut Account, bytes: u64) {
        pool.shrink(account, bytes);
        self.size -= bytes;
    }

    fn free(&mut self, pool: &mut LedgerMemoryPool, account: &mut Account) {
        let size = self.size;
        self.shrink(pool, account, size);
    }
}

#[test]
fn grow_shrink_round_trip_returns_reserved_to_zero() {
    let (mut account, mut pool) = pool_with_limit(16);
    let mut r1 = Reservation::new("op-a");
    let mut r2 = Reservation::new("op-b");

    // Sub-permit requests aggregate instead of charging one permit each.
    r1.try_grow(&mut pool, &mut account, 512).unwrap();
    r1.try_grow(&mut pool, &mut account, 512).unwrap();
    assert_eq!(pool.reserved(&account), KB);

    // 1024 + 1500 bytes reserved round up to three 1 KB permits.
    r2.try_grow(&mut pool, &mut account, 1500).unwrap();
    assert_eq!(pool.reserved(&account), 3 * KB);
    assert_eq!(account.used_bytes(), 3 * KB);

    // Aggregated frees release exactly what the grows acquired.
    r1.free(&mut pool, &mut account);
    assert_eq!(pool.reserved(&account), 2 * KB);
    r2.free(&mut pool, &mut account);
    assert_eq!(pool.reserved(&account), 0);
    assert_eq!(account.used_bytes(), 0);
}

#[test]
fn repeated_sub_permit_shrinks_keep_books_consistent() {
    let (mut account, mut pool) = pool_with_limit(8);
    let mut r = Reservation::new("dribble");
    r.try_grow(&mut pool, &mut account, 2 * KB).unwrap();

    // 20 x 100 B shrinks at KB granularity: the guard releases a permit
    // only once a whole permit's worth of bytes has actually been freed,
    // and pool/account books stay in lockstep the whole way.
    for _ in 0..20 {
        r.shrink(&mut pool, &mut account, 100);
        let expected = r.size.div_ceil(KB) * KB;
        assert_eq!(pool.reserved(&account), expected);
        assert_eq!(account.used_bytes(), expected);
    }
    // 2048 - 2000 = 48 B still reserved: the guard is not emptied while
    // the reservation holds a balance.
    assert_eq!(r.size, 48);
    assert_eq!(pool.reserved(&account), KB);
    r.free(&mut pool, &mut account);
    assert_eq!(pool.reserved(&account), 0);
    assert_eq!(account.used_bytes(), 0);
}

#[test]
fn try_grow_beyond_limit_reports_resources_exhausted() {
    let (mut account, mut pool) = pool_with_limit(4);
    let mut r = Reservation::new("hungry-operator");

    let err = r.try_grow(&mut pool, &mut account, 8 * KB).unwrap_err();
    let message = err.message();
    assert!(message.contains("hungry-operator"), "missing consumer: {message}");
    assert!(message.contains("query/engine"), "missing account: {message}");
    assert_eq!(
        "Failed to allocate additional 8.0 KB for hungry-operator with 0.0 B already allocated \
         for this reservation - memory account query/engine has 0.0 B used of 4.0 KB limit",
        message
    );
    assert_eq!(
        (8 * KB, 0, 0, 4 * KB),
        (err.additional, err.allocated, err.used, err.limit)
    );

    // A failed grow leaves no charge behind; the limit itself still fits.
    assert_eq!(pool.reserved(&account), 0);
    r.try_grow(&mut pool, &mut account, 4 * KB).unwrap();
}

#[test]
fn interleaved_reservations_never_exceed_account_limit() {
    let (mut account, mut pool) = pool_with_limit(8);
    let mut held: Vec<u64> = Vec::new();
    for i in 0..800u64 {
        let bytes = (i % 3 + 1) * KB;
        if pool.try_grow(&mut account, &"op".to_string(), 0, bytes).is_ok() {
            assert!(account.used_bytes() <= account.effective_limit_bytes());
            assert!(pool.reserved(&account) <= 8 * KB);
            held.push(bytes);
        } else {
            for bytes in held.drain(..) {
                pool.shrink(&mut account, bytes);
            }
        }
    }
    for bytes in held {
        pool.shrink(&mut account, bytes);
    }
    assert_eq!(pool.reserved(&account), 0);
    assert_eq!(account.used_bytes(), 0);
}

#[test]
fn pool_shares_budget_with_external_account_handle() {
    let (mut account, mut pool) = pool_with_limit(10);
    let mut r = Reservation::new("pool-face");

    // An external handle on the same account takes most of the budget.
    let external = account.try_acquire(8 * KB).unwrap();
    // 2 KB left: a 4 KB pool-side grow must fail...
    let err = r.try_grow(&mut pool, &mut account, 4 * KB).unwrap_err();
    assert_eq!(8 * KB, err.used);
    // ...while the exact remainder still fits.
    r.try_grow(&mut pool, &mut account, 2 * KB).unwrap();
    assert_eq!(account.used_bytes(), 10 * KB);

    // Capacity released by the external face becomes visible to the pool.
    external.release(&mut account);
    r.try_grow(&mut pool, &mut account, 8 * KB).unwrap();
    assert_eq!(account.used_bytes(), 10 * KB);
    r.free(&mut pool, &mut account);
    assert_eq!(account.used_bytes(), 0);
}

#[test]
fn grow_overdrafts_instead_of_panicking_when_exhausted() {
    let (mut account, mut pool) = pool_with_limit(4);
    let mut r = Reservation::new("infallible-grow");

    r.try_grow(&mut pool, &mut account, 4 * KB).unwrap(); // account full
    r.grow(&mut pool, &mut account, 2 * KB); // must not panic
    // The un-backed portion is carried as overdraft and reported honestly.
    assert_eq!(pool.overdraft_bytes(&account), 2 * KB);
    assert_eq!(pool.reserved(&account), 6 * KB);
    // The account itself never over-grants.
    assert_eq!(account.used_bytes(), 4 * KB);

    // Shrink writes off the overdraft before returning real permits.
    r.shrink(&mut pool, &mut account, 2 * KB);
    assert_eq!(pool.overdraft_bytes(&account), 0);
    assert_eq!(pool.reserved(&account), 4 * KB);
    r.free(&mut pool, &mut account);
    assert_eq!(pool.reserved(&account), 0);
    assert_eq!(account.used_bytes(), 0);

    // With capacity available again, grow takes real permits.
    r.grow(&mut pool, &mut account, KB);
    assert_eq!(pool.overdraft_bytes(&account), 0);
    assert_eq!(account.used_bytes(), KB);
    r.free(&mut pool, &mut account);
    assert_eq!(pool.reserved(&account), 0);
    assert_eq!(pool.memory_limit(&account), 4 * KB);
}
