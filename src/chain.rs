//! The chain of blocks, its ledger, block admission and difficulty retargeting.
use vstd::prelude::*;

use crate::block::{meets_target, Block};
use vstd::arithmetic::div_mod::{lemma_fundamental_div_mod, lemma_fundamental_div_mod_converse};
use crate::encoding::{difficulty_bytes_as_u128, high_half_value, le_encoding, u128_bytes};
use crate::hashing::{bytes_equal, sha256_of, Hashable};
use vstd::slice::slice_to_vec;
use crate::ledger::{balance_in, total_in, Entries, Ledger};
use crate::transaction::{same_transfer, same_transfers, Transaction};
use crate::{now, ChainError};

verus! {

/// The tunable parts of a chain.
pub struct ChainConfig {
    /// The 32-byte target that the chain starts with.
    pub initial_difficulty: Vec<u8>,
    /// Blocks between two difficulty adjustments.
    pub retarget_interval: u32,
    /// Desired milliseconds per block.
    pub target_block_time: u128,
    /// Lowest value that an adjusted target's upper half may take.
    pub min_difficulty: u128,
    /// Highest value that an adjusted target's upper half may take.
    pub max_difficulty: u128,
}

impl ChainConfig {
    pub open spec fn wf(&self) -> bool {
        &&& self.initial_difficulty@.len() == 32
        &&& self.retarget_interval > 0
        &&& self.target_block_time > 0
        &&& self.retarget_interval * self.target_block_time <= u128::MAX
        &&& self.min_difficulty <= self.max_difficulty
    }
}

/// The adjusted value of a target's upper half: `old` scaled by the ratio of the
/// observed time `elapsed` to the expected time of the interval, rounded down,
/// then held between the bounds.
pub open spec fn retarget_value(old: u128, elapsed: u128, interval: u32, block_time: u128, lo: u128, hi: u128) -> int {
    let scaled = (old * elapsed) / (interval * block_time);
    if scaled < lo { lo as int } else if scaled > hi { hi as int } else { scaled }
}

/// A 32-byte target whose upper half reads as `v` and whose lower half is zero.
pub open spec fn target_of(v: nat) -> Seq<u8> {
    Seq::new(16, |i: int| 0u8) + le_encoding(v, 16)
}

/// A quotient of at least `q`: `x / d >= q` where `x >= q * d`.
proof fn lemma_quotient_at_least(x: int, d: int, q: int)
    requires
        d > 0,
        x >= q * d,
    ensures
        x / d >= q,
{
    lemma_fundamental_div_mod(x, d);
    assert(x / d >= q) by (nonlinear_arith)
        requires
            d > 0,
            x >= q * d,
            x == d * (x / d) + x % d,
            0 <= x % d < d,
    ;
}

/// The product `a * b` divided by `d`, rounded down, or `cap` where that is
/// larger; computed without overflow by adding up `a` doubled once per bit of
/// `b`, each partial sum kept as a quotient and a remainder by `d`.
pub fn mul_div_capped(a: u128, b: u128, d: u128, cap: u128) -> (r: u128)
    requires
        d > 0,
    ensures
        r == (if (a * b) / (d as int) > cap { cap as int } else { (a * b) / (d as int) }),
{
    let mut s_q: u128 = 0;
    let mut s_r: u128 = 0;
    let mut a_q: u128 = a / d;
    let mut a_r: u128 = a % d;
    let mut rem: u128 = b;
    let ghost total: int = a * b;
    proof {
        lemma_fundamental_div_mod(a as int, d as int);
    }
    if a_q > cap {
        if b == 0 {
            assert(total == 0);
            return 0;
        }
        proof {
            assert(total >= a_q * d) by (nonlinear_arith)
                requires
                    total == a * b,
                    b >= 1,
                    a == d * a_q + a_r,
                    a_r >= 0,
                    d > 0,
            ;
            lemma_quotient_at_least(total, d as int, a_q as int);
        }
        return cap;
    }
    assert(total == (s_q * d + s_r) + rem * (a_q * d + a_r)) by (nonlinear_arith)
        requires
            total == a * b,
            a == d * a_q + a_r,
            s_q == 0,
            s_r == 0,
            rem == b,
    ;
    loop
        invariant
            d > 0,
            s_r < d,
            a_r < d,
            s_q <= cap,
            a_q <= cap,
            total == a * b,
            total == (s_q * d + s_r) + rem * (a_q * d + a_r),
        decreases rem,
    {
        let ghost addend: int = a_q * d + a_r;
        let ghost rem0: int = rem as int;
        let ghost mut sum: int = s_q * d + s_r;
        let ghost sum0: int = sum;
        assert(addend >= 0) by (nonlinear_arith)
            requires
                addend == a_q * d + a_r,
                d > 0,
        ;
        if rem % 2 == 1 {
            let ghost s_q0: int = s_q as int;
            let ghost s_r0: int = s_r as int;
            let carry: u128;
            if s_r >= d - a_r {
                s_r = s_r - (d - a_r);
                carry = 1;
            } else {
                s_r = s_r + a_r;
                carry = 0;
            }
            let ghost q: int = s_q0 + a_q + carry;
            assert(q * d + s_r == sum + addend) by (nonlinear_arith)
                requires
                    q == s_q0 + a_q + carry,
                    s_r + carry * d == s_r0 + a_r,
                    sum == s_q0 * d + s_r0,
                    addend == a_q * d + a_r,
            ;
            if s_q > cap - a_q || cap - a_q - s_q < carry {
                proof {
                    assert(total >= q * d) by (nonlinear_arith)
                        requires
                            total == sum + rem0 * addend,
                            rem0 >= 1,
                            addend >= 0,
                            q * d + s_r == sum + addend,
                            s_r >= 0,
                    ;
                    lemma_quotient_at_least(total, d as int, q);
                }
                return cap;
            }
            s_q = s_q + a_q + carry;
            proof {
                sum = sum + addend;
            }
        }
        assert(sum == s_q * d + s_r);
        let ghost bit: int = if rem0 % 2 == 1 { 1 } else { 0 };
        assert(sum == sum0 + bit * addend);
        rem = rem / 2;
        assert(rem0 == 2 * rem + bit);
        assert(total == sum + rem * (2 * addend)) by (nonlinear_arith)
            requires
                total == sum0 + rem0 * addend,
                sum == sum0 + bit * addend,
                rem0 == 2 * rem + bit,
        ;
        assert(sum >= 0) by (nonlinear_arith)
            requires
                sum == s_q * d + s_r,
                d > 0,
        ;
        if rem == 0 {
            proof {
                lemma_fundamental_div_mod_converse(total, d as int, s_q as int, s_r as int);
            }
            return s_q;
        }
        let ghost a_q0: int = a_q as int;
        let ghost a_r0: int = a_r as int;
        let carry: u128;
        if a_r >= d - a_r {
            a_r = a_r - (d - a_r);
            carry = 1;
        } else {
            a_r = a_r + a_r;
            carry = 0;
        }
        let ghost q: int = 2 * a_q0 + carry;
        assert(q * d + a_r == 2 * addend) by (nonlinear_arith)
            requires
                q == 2 * a_q0 + carry,
                a_r + carry * d == 2 * a_r0,
                addend == a_q0 * d + a_r0,
        ;
        if a_q > cap - a_q || cap - a_q - a_q < carry {
            proof {
                assert(total >= q * d) by (nonlinear_arith)
                    requires
                        total == sum + rem * (2 * addend),
                        rem >= 1,
                        sum >= 0,
                        addend >= 0,
                        q * d + a_r == 2 * addend,
                        a_r >= 0,
                ;
                lemma_quotient_at_least(total, d as int, q);
            }
            return cap;
        }
        a_q = a_q + a_q + carry;
    }
}

/// The adjusted upper-half value of a target, as `retarget_value` states it.
pub fn retarget(old: u128, elapsed: u128, config: &ChainConfig) -> (r: u128)
    requires
        config.wf(),
    ensures
        r == retarget_value(old, elapsed, config.retarget_interval, config.target_block_time,
            config.min_difficulty, config.max_difficulty),
{
    let expected = config.retarget_interval as u128 * config.target_block_time;
    assert(expected >= 1) by (nonlinear_arith)
        requires
            expected == config.retarget_interval * config.target_block_time,
            config.retarget_interval > 0,
            config.target_block_time > 0,
    ;
    let scaled = mul_div_capped(old, elapsed, expected, config.max_difficulty);
    if scaled < config.min_difficulty {
        config.min_difficulty
    } else {
        scaled
    }
}

/// The 32-byte target whose upper half reads as `v`.
pub fn target_bytes(v: u128) -> (r: Vec<u8>)
    ensures
        r@ == target_of(v as nat),
        r@.len() == 32,
        high_half_value(r@) == v,
{
    let mut r: Vec<u8> = Vec::new();
    let mut i: usize = 0;
    while i < 16
        invariant
            i <= 16,
            r@ == Seq::new(i as nat, |j: int| 0u8),
        decreases 16 - i,
    {
        r.push(0);
        i += 1;
        assert(r@ =~= Seq::new(i as nat, |j: int| 0u8));
    }
    let high = u128_bytes(&v);
    let mut k: usize = 0;
    while k < 16
        invariant
            k <= 16,
            r@ == Seq::new(16, |j: int| 0u8) + high@.subrange(0, k as int),
        decreases 16 - k,
    {
        r.push(high[k]);
        k += 1;
        assert(r@ =~= Seq::new(16, |j: int| 0u8) + high@.subrange(0, k as int));
    }
    assert(high@.subrange(0, 16) =~= high@);
    assert(r@.subrange(16, 32) =~= high@);
    r
}

/// A balance for every address.
pub type Balances = spec_fn(Seq<char>) -> nat;

/// The balances of a ledger as a function of the address.
pub open spec fn balances_of(l: Ledger) -> Balances {
    |a: Seq<char>| l.balance(a)
}

/// The balances after `t` moves its amount from sender to recipient.
pub open spec fn after_transfer(b: Balances, t: Transaction) -> Balances {
    |a: Seq<char>|
        if a == t.sender@ && a != t.recipient@ {
            (b(a) - t.amount) as nat
        } else if a == t.recipient@ && a != t.sender@ {
            (b(a) + t.amount) as nat
        } else {
            b(a)
        }
}

/// The balances after applying `txs` in order to `b`, or `None` where one of
/// them would take more from its sender than the sender holds at that point.
pub open spec fn replay(b: Balances, txs: Seq<Transaction>) -> Option<Balances>
    decreases txs.len(),
{
    if txs.len() == 0 {
        Some(b)
    } else {
        match replay(b, txs.drop_last()) {
            Some(p) => if p(txs.last().sender@) >= txs.last().amount {
                Some(after_transfer(p, txs.last()))
            } else {
                None
            },
            None => None,
        }
    }
}

/// Every transaction moves a positive amount.
pub open spec fn amounts_positive(txs: Seq<Transaction>) -> bool {
    forall|i: int| 0 <= i < txs.len() ==> txs[i].amount > 0
}

/// No two transactions have the same bytes.
pub open spec fn no_duplicates(txs: Seq<Transaction>) -> bool {
    forall|i: int, j: int| 0 <= i < j < txs.len() ==> txs[i].encoded() != txs[j].encoded()
}

/// Whether the two transactions are the same transfer.
fn transfer_equal(a: &Transaction, b: &Transaction) -> (r: bool)
    ensures
        r == same_transfer(*a, *b),
{
    a.amount == b.amount && a.sender == b.sender && a.recipient == b.recipient
}

/// Whether every transaction of `txs` moves a positive amount.
fn all_positive(txs: &Vec<Transaction>) -> (r: bool)
    ensures
        r == amounts_positive(txs@),
{
    let mut i: usize = 0;
    while i < txs.len()
        invariant
            i <= txs@.len(),
            forall|k: int| 0 <= k < i ==> txs@[k].amount > 0,
        decreases txs@.len() - i,
    {
        if txs[i].amount == 0 {
            return false;
        }
        i += 1;
    }
    true
}

/// The first transaction error of `txs`: a zero amount anywhere, else two
/// transactions with the same bytes.
fn check_transactions(txs: &Vec<Transaction>) -> (r: Result<(), ChainError>)
    ensures
        r is Ok <==> amounts_positive(txs@) && no_duplicates(txs@),
        r == Err::<(), ChainError>(ChainError::MalformedTransaction) <==> !amounts_positive(txs@),
        r == Err::<(), ChainError>(ChainError::DuplicateTransaction) <==> amounts_positive(txs@) && !no_duplicates(txs@),
{
    if !all_positive(txs) {
        return Err(ChainError::MalformedTransaction);
    }
    let mut j: usize = 0;
    while j < txs.len()
        invariant
            j <= txs@.len(),
            amounts_positive(txs@),
            forall|a: int, b: int| 0 <= a < b < txs@.len() && a < j ==> txs@[a].encoded() != txs@[b].encoded(),
        decreases txs@.len() - j,
    {
        let first = txs[j].bytes();
        let mut k: usize = j + 1;
        while k < txs.len()
            invariant
                j < txs@.len(),
                amounts_positive(txs@),
                j + 1 <= k <= txs@.len(),
                first@ == txs@[j as int].encoded(),
                forall|a: int, b: int| 0 <= a < b < txs@.len() && a < j ==> txs@[a].encoded() != txs@[b].encoded(),
                forall|b: int| j < b < k ==> txs@[j as int].encoded() != txs@[b].encoded(),
            decreases txs@.len() - k,
        {
            let second = txs[k].bytes();
            if bytes_equal(&first, &second) {
                assert(!no_duplicates(txs@)) by {
                    assert(txs@[j as int].encoded() == txs@[k as int].encoded());
                }
                return Err(ChainError::DuplicateTransaction);
            }
            k += 1;
        }
        j += 1;
    }
    Ok(())
}

/// Once a prefix of `txs` fails to replay, so does the whole.
proof fn lemma_replay_fails_onwards(b: Balances, txs: Seq<Transaction>, i: int)
    requires
        0 <= i <= txs.len(),
        replay(b, txs.subrange(0, i)) is None,
    ensures
        replay(b, txs) is None,
    decreases txs.len() - i,
{
    if i < txs.len() {
        assert(txs.subrange(0, i + 1).drop_last() =~= txs.subrange(0, i));
        lemma_replay_fails_onwards(b, txs, i + 1);
    } else {
        assert(txs.subrange(0, i) =~= txs);
    }
}

/// Applies `txs` in order to `ledger`; false, with `ledger` left part-way, as
/// soon as one would overdraw its sender.
fn apply_transfers(ledger: &mut Ledger, txs: &Vec<Transaction>) -> (r: bool)
    requires
        old(ledger).wf(),
    ensures
        final(ledger).wf(),
        r == replay(balances_of(*old(ledger)), txs@) is Some,
        r ==> final(ledger).total() == old(ledger).total(),
        r ==> forall|a: Seq<char>| final(ledger).balance(a) == replay(balances_of(*old(ledger)), txs@)->Some_0(a),
{
    let ghost start = balances_of(*ledger);
    let ghost total = ledger.total();
    let mut i: usize = 0;
    while i < txs.len()
        invariant
            i <= txs@.len(),
            ledger.wf(),
            ledger.total() == total,
            start == balances_of(*old(ledger)),
            total == old(ledger).total(),
            replay(start, txs@.subrange(0, i as int)) is Some,
            forall|a: Seq<char>| ledger.balance(a) == replay(start, txs@.subrange(0, i as int))->Some_0(a),
        decreases txs@.len() - i,
    {
        let t = &txs[i];
        let ghost prefix = txs@.subrange(0, i as int);
        let ghost next = txs@.subrange(0, i + 1);
        assert(next.drop_last() =~= prefix);
        let have = ledger.balance_of(&t.sender);
        if have < t.amount {
            proof {
                assert(replay(start, next) is None);
                lemma_replay_fails_onwards(start, txs@, i + 1);
            }
            return false;
        }
        ledger.debit(&t.sender, t.amount);
        ledger.credit(&t.recipient, t.amount);
        i += 1;
        proof {
            let p = replay(start, prefix)->Some_0;
            assert forall|a: Seq<char>| ledger.balance(a) == replay(start, next)->Some_0(a) by {
                assert(replay(start, next)->Some_0 == after_transfer(p, *t));
            }
        }
    }
    assert(txs@.subrange(0, i as int) =~= txs@);
    true
}

/// The sum of the amounts of `txs`.
pub open spec fn amount_total(txs: Seq<Transaction>) -> nat
    decreases txs.len(),
{
    if txs.len() == 0 {
        0
    } else {
        amount_total(txs.drop_last()) + txs.last().amount as nat
    }
}

/// What the genesis transactions `txs` grant to address `a`: the amounts of
/// those whose recipient it is.
pub open spec fn granted(txs: Seq<Transaction>, a: Seq<char>) -> nat
    decreases txs.len(),
{
    if txs.len() == 0 {
        0
    } else {
        granted(txs.drop_last(), a) + (if txs.last().recipient@ == a { txs.last().amount as nat } else { 0 })
    }
}

/// The hash that the genesis block names as its predecessor: 32 zero bytes.
pub open spec fn zero_hash() -> Seq<u8> {
    Seq::new(32, |i: int| 0u8)
}

/// `b` may stand first in a chain.
pub open spec fn is_genesis(b: Block) -> bool {
    &&& b.index == 0
    &&& b.prev_block_hash@ == zero_hash()
    &&& amounts_positive(b.transactions@)
    &&& amount_total(b.transactions@) <= u64::MAX
}

/// The balances after the first `n` blocks of `blocks`: the genesis grants, then
/// each later block's transfers in order; `None` where a transfer overdraws.
pub open spec fn ledger_after(blocks: Seq<Block>, n: nat) -> Option<Balances>
    decreases n,
{
    if n <= 1 {
        Some(|a: Seq<char>| granted(blocks[0].transactions@, a))
    } else {
        match ledger_after(blocks, (n - 1) as nat) {
            Some(b) => replay(b, blocks[n - 1].transactions@),
            None => None,
        }
    }
}

/// The outcome of admitting `b` after the blocks `blocks`, whose tip is the
/// last: the first check, in order, that fails, else success.
pub open spec fn admission(blocks: Seq<Block>, b: Block) -> Result<(), ChainError> {
    let tip = blocks.last();
    if b.index != tip.index + 1 {
        Err(ChainError::InvalidIndex)
    } else if b.prev_block_hash@ != sha256_of(tip.encoded()) {
        Err(ChainError::InvalidLinkage)
    } else if b.hash@ != sha256_of(b.encoded()) {
        Err(ChainError::HashMismatch)
    } else if !meets_target(b.hash@, b.difficulty@) {
        Err(ChainError::InvalidProofOfWork)
    } else if !amounts_positive(b.transactions@) {
        Err(ChainError::MalformedTransaction)
    } else if !no_duplicates(b.transactions@) {
        Err(ChainError::DuplicateTransaction)
    } else if ledger_after(blocks.push(b), blocks.len() + 1) is None {
        Err(ChainError::InsufficientBalance)
    } else {
        Ok(())
    }
}

/// A valid chain: a genesis block, then blocks each admitted after those
/// before it.
pub open spec fn chain_valid(blocks: Seq<Block>) -> bool {
    &&& blocks.len() >= 1
    &&& is_genesis(blocks[0])
    &&& forall|i: int| 1 <= i < blocks.len() ==> admission(#[trigger] blocks.subrange(0, i), blocks[i]) is Ok
}

/// The transactions of `pool` that no transaction of `txs` repeats, in order.
pub open spec fn unconfirmed(pool: Seq<Transaction>, txs: Seq<Transaction>) -> Seq<Transaction>
    decreases pool.len(),
{
    if pool.len() == 0 {
        Seq::empty()
    } else {
        let rest = unconfirmed(pool.drop_last(), txs);
        if exists|i: int| 0 <= i < txs.len() && same_transfer(txs[i], pool.last()) {
            rest
        } else {
            rest.push(pool.last())
        }
    }
}

proof fn lemma_amount_total_prefix(txs: Seq<Transaction>, i: int)
    requires
        0 <= i <= txs.len(),
    ensures
        amount_total(txs.subrange(0, i)) <= amount_total(txs),
    decreases txs.len() - i,
{
    if i < txs.len() {
        lemma_amount_total_prefix(txs, i + 1);
        assert(txs.subrange(0, i + 1).drop_last() =~= txs.subrange(0, i));
    } else {
        assert(txs.subrange(0, i) =~= txs);
    }
}

/// The ledger that the genesis transactions `txs` grant, unless their amounts
/// together exceed `u64::MAX`.
fn genesis_ledger(txs: &Vec<Transaction>) -> (r: Option<Ledger>)
    ensures
        r is Some <==> amount_total(txs@) <= u64::MAX,
        r matches Some(l) ==> l.wf() && l.total() == amount_total(txs@)
            && balances_of(l) == (|a: Seq<char>| granted(txs@, a)),
{
    let mut l = Ledger::new();
    let mut total: u64 = 0;
    let mut i: usize = 0;
    while i < txs.len()
        invariant
            i <= txs@.len(),
            l.wf(),
            l.total() == total,
            total == amount_total(txs@.subrange(0, i as int)),
            forall|a: Seq<char>| l.balance(a) == granted(txs@.subrange(0, i as int), a),
        decreases txs@.len() - i,
    {
        let ghost prefix = txs@.subrange(0, i as int);
        let ghost next = txs@.subrange(0, i + 1);
        assert(next.drop_last() =~= prefix);
        let t = &txs[i];
        match total.checked_add(t.amount) {
            Some(v) => {
                l.credit(&t.recipient, t.amount);
                total = v;
            },
            None => {
                proof {
                    lemma_amount_total_prefix(txs@, i + 1);
                }
                return None;
            },
        }
        i += 1;
    }
    assert(txs@.subrange(0, i as int) =~= txs@);
    assert(balances_of(l) =~= (|a: Seq<char>| granted(txs@, a)));
    Some(l)
}

/// In a valid chain every block after genesis follows its predecessor: its
/// index is one more and it names the predecessor's digest.
pub proof fn lemma_valid_chain_linked(blocks: Seq<Block>)
    requires
        chain_valid(blocks),
    ensures
        forall|i: int| 0 < i < blocks.len() ==> (#[trigger] blocks[i]).prev_block_hash@ == sha256_of(blocks[i - 1].encoded())
            && blocks[i].index == blocks[i - 1].index + 1,
{
    assert forall|i: int| 0 < i < blocks.len() implies (#[trigger] blocks[i]).prev_block_hash@ == sha256_of(
        blocks[i - 1].encoded(),
    ) && blocks[i].index == blocks[i - 1].index + 1 by {
        assert(admission(blocks.subrange(0, i), blocks[i]) is Ok);
        assert(blocks.subrange(0, i).last() == blocks[i - 1]);
    }
}

/// In a valid chain every block after genesis carries its own digest, and the
/// upper half of that digest does not exceed the upper half of its target.
pub proof fn lemma_valid_chain_proof_of_work(blocks: Seq<Block>)
    requires
        chain_valid(blocks),
    ensures
        forall|i: int| 0 < i < blocks.len() ==> (#[trigger] blocks[i]).is_sealed()
            && high_half_value(blocks[i].hash@) <= high_half_value(blocks[i].difficulty@),
{
    assert forall|i: int| 0 < i < blocks.len() implies (#[trigger] blocks[i]).is_sealed()
        && high_half_value(blocks[i].hash@) <= high_half_value(blocks[i].difficulty@) by {
        assert(admission(blocks.subrange(0, i), blocks[i]) is Ok);
    }
}

/// Transfers neither create nor destroy value: the balances of a chain always
/// add up to what its genesis block granted.
pub proof fn lemma_balance_conservation(c: Blockchain)
    requires
        c.wf(),
    ensures
        c.ledger().total() == amount_total(c.blocks()[0].transactions@),
{
}

/// The blocks in order, the confirmed ledger, the pending pool, the current
/// target and the configuration.
pub struct Blockchain {
    blocks: Vec<Block>,
    balances: Ledger,
    pending: Vec<Transaction>,
    difficulty: Vec<u8>,
    config: ChainConfig,
}

impl Blockchain {
    pub closed spec fn blocks(&self) -> Seq<Block> {
        self.blocks@
    }

    pub closed spec fn ledger(&self) -> Ledger {
        self.balances
    }

    pub closed spec fn pending(&self) -> Seq<Transaction> {
        self.pending@
    }

    pub closed spec fn difficulty(&self) -> Seq<u8> {
        self.difficulty@
    }

    pub closed spec fn config(&self) -> ChainConfig {
        self.config
    }

    /// The balance of `a` in the confirmed ledger.
    pub open spec fn balance(&self, a: Seq<char>) -> nat {
        self.ledger().balance(a)
    }

    pub open spec fn wf(&self) -> bool {
        &&& chain_valid(self.blocks())
        &&& self.ledger().wf()
        &&& ledger_after(self.blocks(), self.blocks().len()) == Some(balances_of(self.ledger()))
        &&& self.ledger().total() == amount_total(self.blocks()[0].transactions@)
        &&& self.difficulty().len() == 32
        &&& self.config().wf()
    }
}

/// Where the chain is valid, each block's index is its position.
proof fn lemma_indices(blocks: Seq<Block>, i: int)
    requires
        chain_valid(blocks),
        0 <= i < blocks.len(),
    ensures
        blocks[i].index == i,
    decreases i,
{
    if i > 0 {
        lemma_indices(blocks, i - 1);
        assert(admission(blocks.subrange(0, i), blocks[i]) is Ok);
    }
}

/// 32 zero bytes.
fn zero_hash_bytes() -> (r: Vec<u8>)
    ensures
        r@ == zero_hash(),
{
    let mut r: Vec<u8> = Vec::new();
    let mut i: usize = 0;
    while i < 32
        invariant
            i <= 32,
            r@ == Seq::new(i as nat, |j: int| 0u8),
        decreases 32 - i,
    {
        r.push(0);
        i += 1;
        assert(r@ =~= Seq::new(i as nat, |j: int| 0u8));
    }
    r
}

/// Admission looks only at the blocks before the one admitted.
proof fn lemma_ledger_after_push(blocks: Seq<Block>, b: Block, n: nat)
    requires
        1 <= n <= blocks.len(),
    ensures
        ledger_after(blocks.push(b), n) == ledger_after(blocks, n),
    decreases n,
{
    if n > 1 {
        lemma_ledger_after_push(blocks, b, (n - 1) as nat);
    }
}

/// A valid chain stays valid with a block that it admits.
proof fn lemma_chain_valid_push(blocks: Seq<Block>, b: Block)
    requires
        chain_valid(blocks),
        admission(blocks, b) is Ok,
    ensures
        chain_valid(blocks.push(b)),
{
    let nb = blocks.push(b);
    assert forall|i: int| 1 <= i < nb.len() implies admission(#[trigger] nb.subrange(0, i), nb[i]) is Ok by {
        if i < blocks.len() {
            assert(nb.subrange(0, i) =~= blocks.subrange(0, i));
        } else {
            assert(nb.subrange(0, i) =~= blocks);
        }
    }
}

/// Whether some transaction of `txs` is the same transfer as `t`.
fn includes(txs: &Vec<Transaction>, t: &Transaction) -> (r: bool)
    ensures
        r == exists|i: int| 0 <= i < txs@.len() && same_transfer(txs@[i], *t),
{
    let mut i: usize = 0;
    while i < txs.len()
        invariant
            i <= txs@.len(),
            forall|j: int| 0 <= j < i ==> !same_transfer(txs@[j], *t),
        decreases txs@.len() - i,
    {
        if transfer_equal(&txs[i], t) {
            return true;
        }
        i += 1;
    }
    false
}

/// Copies of the transactions of `pool` that `txs` does not include, in order.
fn without_included(pool: &Vec<Transaction>, txs: &Vec<Transaction>) -> (r: Vec<Transaction>)
    ensures
        same_transfers(r@, unconfirmed(pool@, txs@)),
{
    let mut r: Vec<Transaction> = Vec::new();
    let mut i: usize = 0;
    while i < pool.len()
        invariant
            i <= pool@.len(),
            same_transfers(r@, unconfirmed(pool@.subrange(0, i as int), txs@)),
        decreases pool@.len() - i,
    {
        let ghost prefix = pool@.subrange(0, i as int);
        assert(pool@.subrange(0, i + 1).drop_last() =~= prefix);
        if !includes(txs, &pool[i]) {
            r.push(pool[i].duplicate());
        }
        i += 1;
    }
    assert(pool@.subrange(0, i as int) =~= pool@);
    r
}

/// The target after admitting the last of `blocks` under `current`. Where the
/// chain's length is a multiple of `retarget_interval`, the target is scaled by
/// the time that the last `retarget_interval` blocks took: from the stamp of the
/// block just before them to that of the last. The first interval holds the
/// genesis block and has no block before it, so it is measured from genesis.
pub open spec fn retargeted(blocks: Seq<Block>, current: Seq<u8>, config: ChainConfig) -> Seq<u8> {
    let n = blocks.len() as int;
    let interval = config.retarget_interval as int;
    if n % interval == 0 {
        let start = if n > interval { blocks[n - interval - 1].timestamp } else { blocks[0].timestamp };
        let end = blocks[n - 1].timestamp;
        let elapsed = if end >= start { end - start } else { 0 };
        target_of(retarget_value(high_half_value(current) as u128, elapsed as u128, config.retarget_interval,
            config.target_block_time, config.min_difficulty, config.max_difficulty) as nat)
    } else {
        current
    }
}

/// Copies of the transactions of `txs`, in order.
fn copy_transactions(txs: &Vec<Transaction>) -> (r: Vec<Transaction>)
    ensures
        same_transfers(r@, txs@),
{
    let mut r: Vec<Transaction> = Vec::new();
    let mut i: usize = 0;
    while i < txs.len()
        invariant
            i <= txs@.len(),
            r@.len() == i,
            forall|j: int| 0 <= j < i ==> same_transfer(r@[j], txs@[j]),
        decreases txs@.len() - i,
    {
        r.push(txs[i].duplicate());
        i += 1;
    }
    r
}

/// Checks that `block` may follow `blocks`, whose last is `prev` and whose
/// ledger is `ledger`; on success, the ledger after its transfers.
fn check_admission(Ghost(blocks): Ghost<Seq<Block>>, prev: &Block, block: &Block, ledger: &Ledger) -> (r: Result<Ledger, ChainError>)
    requires
        blocks.len() >= 1,
        *prev == blocks.last(),
        ledger.wf(),
        ledger_after(blocks, blocks.len()) == Some(balances_of(*ledger)),
    ensures
        r is Ok <==> admission(blocks, *block) is Ok,
        r matches Err(e) ==> admission(blocks, *block) == Err::<(), ChainError>(e),
        r matches Ok(l) ==> l.wf() && l.total() == ledger.total()
            && ledger_after(blocks.push(*block), blocks.len() + 1) == Some(balances_of(l)),
{
    if block.index as u64 != prev.index as u64 + 1 {
        return Err(ChainError::InvalidIndex);
    }
    let prev_hash = prev.hash();
    if !bytes_equal(&block.prev_block_hash, &prev_hash) {
        return Err(ChainError::InvalidLinkage);
    }
    match block.verify() {
        Err(e) => {
            return Err(e);
        },
        Ok(()) => {},
    }
    match check_transactions(&block.transactions) {
        Err(e) => {
            return Err(e);
        },
        Ok(()) => {},
    }
    let mut scratch = ledger.snapshot();
    proof {
        lemma_ledger_after_push(blocks, *block, blocks.len());
        assert(balances_of(scratch) =~= balances_of(*ledger));
    }
    if !apply_transfers(&mut scratch, &block.transactions) {
        return Err(ChainError::InsufficientBalance);
    }
    proof {
        assert(balances_of(scratch) =~= replay(balances_of(*ledger), block.transactions@)->Some_0);
    }
    Ok(scratch)
}

/// The outcome of checking the first block of `blocks` as a genesis block:
/// its presence and index, its zero predecessor hash, then its grants.
pub open spec fn genesis_check(blocks: Seq<Block>) -> Result<(), ChainError> {
    if blocks.len() == 0 || blocks[0].index != 0 {
        Err(ChainError::InvalidIndex)
    } else if blocks[0].prev_block_hash@ != zero_hash() {
        Err(ChainError::InvalidLinkage)
    } else if !amounts_positive(blocks[0].transactions@) || amount_total(blocks[0].transactions@) > u64::MAX {
        Err(ChainError::MalformedTransaction)
    } else {
        Ok(())
    }
}

/// Checks a whole sequence of blocks from genesis on, independently of any
/// chain, and returns the ledger it leads to, or the position of the first
/// block that fails and why.
pub fn validate_chain(blocks: &Vec<Block>) -> (r: Result<Ledger, (usize, ChainError)>)
    ensures
        r is Ok <==> chain_valid(blocks@),
        r matches Ok(l) ==> l.wf() && ledger_after(blocks@, blocks@.len()) == Some(balances_of(l))
            && l.total() == amount_total(blocks@[0].transactions@),
        r matches Err((i, e)) ==> (i == 0 && genesis_check(blocks@) == Err::<(), ChainError>(e)) || (0 < i < blocks@.len()
            && chain_valid(blocks@.subrange(0, i as int))
            && admission(blocks@.subrange(0, i as int), blocks@[i as int]) == Err::<(), ChainError>(e)),
{
    if blocks.len() == 0 || blocks[0].index != 0 {
        return Err((0, ChainError::InvalidIndex));
    }
    let genesis = &blocks[0];
    let zero = zero_hash_bytes();
    if !bytes_equal(&genesis.prev_block_hash, &zero) {
        return Err((0, ChainError::InvalidLinkage));
    }
    if !all_positive(&genesis.transactions) {
        return Err((0, ChainError::MalformedTransaction));
    }
    let mut ledger = match genesis_ledger(&genesis.transactions) {
        None => {
            return Err((0, ChainError::MalformedTransaction));
        },
        Some(l) => l,
    };
    proof {
        let first = blocks@.subrange(0, 1);
        assert(first[0] == blocks@[0]);
        assert(chain_valid(first));
    }
    let mut i: usize = 1;
    while i < blocks.len()
        invariant
            1 <= i <= blocks@.len(),
            chain_valid(blocks@.subrange(0, i as int)),
            ledger.wf(),
            ledger_after(blocks@.subrange(0, i as int), i as nat) == Some(balances_of(ledger)),
            ledger.total() == amount_total(blocks@[0].transactions@),
        decreases blocks@.len() - i,
    {
        let ghost prefix = blocks@.subrange(0, i as int);
        match check_admission(Ghost(prefix), &blocks[i - 1], &blocks[i], &ledger) {
            Err(e) => {
                return Err((i, e));
            },
            Ok(l) => {
                ledger = l;
            },
        }
        proof {
            lemma_chain_valid_push(prefix, blocks@[i as int]);
            assert(prefix.push(blocks@[i as int]) =~= blocks@.subrange(0, i + 1));
        }
        i += 1;
    }
    proof {
        assert(blocks@.subrange(0, i as int) =~= blocks@);
    }
    Ok(ledger)
}

impl Blockchain {
    /// A chain of one genesis block, stamped `timestamp`, that grants each
    /// transaction's amount to its recipient; its target is the configured one.
    pub fn new(genesis: Vec<Transaction>, config: ChainConfig, timestamp: u128) -> (r: Blockchain)
        requires
            config.wf(),
            amounts_positive(genesis@),
            amount_total(genesis@) <= u64::MAX,
        ensures
            r.wf(),
            r.blocks().len() == 1,
            r.blocks()[0].index == 0,
            r.blocks()[0].prev_block_hash@ == zero_hash(),
            r.blocks()[0].timestamp == timestamp,
            r.blocks()[0].transactions@ == genesis@,
            r.difficulty() == config.initial_difficulty@,
            r.pending().len() == 0,
            forall|a: Seq<char>| r.balance(a) == granted(genesis@, a),
    {
        let balances = match genesis_ledger(&genesis) {
            Some(l) => l,
            None => Ledger::new(),
        };
        let difficulty = slice_to_vec(config.initial_difficulty.as_slice());
        let mut block = Block::candidate(0, timestamp, zero_hash_bytes(), genesis, slice_to_vec(difficulty.as_slice()));
        block.hash = block.hash();
        let mut blocks: Vec<Block> = Vec::new();
        blocks.push(block);
        let r = Blockchain { blocks, balances, pending: Vec::new(), difficulty, config };
        proof {
            assert(r.blocks().len() == 1);
            assert(forall|a: Seq<char>| r.balance(a) == balances_of(r.ledger())(a));
        }
        r
    }

    /// The number of blocks, genesis included.
    pub fn len(&self) -> (r: usize)
        ensures
            r == self.blocks().len(),
    {
        self.blocks.len()
    }

    /// The block at position `i`.
    pub fn block_at(&self, i: usize) -> (r: &Block)
        requires
            i < self.blocks().len(),
        ensures
            *r == self.blocks()[i as int],
    {
        &self.blocks[i]
    }

    /// The blocks, genesis first.
    pub fn block_list(&self) -> (r: &Vec<Block>)
        ensures
            r@ == self.blocks(),
    {
        &self.blocks
    }

    /// The last block.
    pub fn tip(&self) -> (r: &Block)
        requires
            self.wf(),
        ensures
            *r == self.blocks().last(),
    {
        &self.blocks[self.blocks.len() - 1]
    }

    /// The number of transactions waiting for a block.
    pub fn pending_count(&self) -> (r: usize)
        ensures
            r == self.pending().len(),
    {
        self.pending.len()
    }

    /// The target that the next block is assembled with.
    pub fn current_difficulty(&self) -> (r: &Vec<u8>)
        ensures
            r@ == self.difficulty(),
    {
        &self.difficulty
    }

    /// The confirmed ledger.
    pub fn balances(&self) -> (r: &Ledger)
        ensures
            *r == self.ledger(),
    {
        &self.balances
    }

    /// The confirmed balance of `a`; zero for an address never seen.
    pub fn balance_of(&self, a: &String) -> (r: u64)
        requires
            self.wf(),
        ensures
            r == self.balance(a@),
    {
        self.balances.balance_of(a)
    }

    /// Adds `tx` to the pending pool, if it moves a positive amount that its
    /// sender holds in the confirmed ledger.
    pub fn submit_transaction(&mut self, tx: Transaction) -> (r: Result<(), ChainError>)
        requires
            old(self).wf(),
        ensures
            final(self).wf(),
            final(self).blocks() == old(self).blocks(),
            final(self).ledger() == old(self).ledger(),
            final(self).difficulty() == old(self).difficulty(),
            tx.amount == 0 ==> r == Err::<(), ChainError>(ChainError::MalformedTransaction),
            tx.amount > 0 && old(self).balance(tx.sender@) < tx.amount
                ==> r == Err::<(), ChainError>(ChainError::InsufficientBalance),
            tx.amount > 0 && old(self).balance(tx.sender@) >= tx.amount ==> r is Ok,
            r is Ok ==> final(self).pending() == old(self).pending().push(tx),
            r is Err ==> final(self).pending() == old(self).pending(),
    {
        if tx.amount == 0 {
            return Err(ChainError::MalformedTransaction);
        }
        if self.balances.balance_of(&tx.sender) < tx.amount {
            return Err(ChainError::InsufficientBalance);
        }
        self.pending.push(tx);
        Ok(())
    }

    /// Admits `block` after the tip if it passes every check, in order: index,
    /// linkage, its own hash and proof of work, its transactions' amounts and
    /// uniqueness, and its transfers against the confirmed ledger. On success the
    /// ledger takes the transfers, the pool drops what the block includes, and
    /// the target is adjusted where an interval ends; on failure nothing changes.
    pub fn add_block(&mut self, block: Block) -> (r: Result<(), ChainError>)
        requires
            old(self).wf(),
        ensures
            final(self).wf(),
            r == admission(old(self).blocks(), block),
            r is Err ==> final(self).blocks() == old(self).blocks() && final(self).ledger() == old(self).ledger()
                && final(self).pending() == old(self).pending() && final(self).difficulty() == old(self).difficulty(),
            r is Ok ==> final(self).blocks() == old(self).blocks().push(block),
            r is Ok ==> Some(balances_of(final(self).ledger())) == replay(balances_of(old(self).ledger()), block.transactions@),
            r is Ok ==> final(self).ledger().total() == old(self).ledger().total(),
            r is Ok ==> same_transfers(final(self).pending(), unconfirmed(old(self).pending(), block.transactions@)),
            r is Ok ==> final(self).difficulty() == retargeted(final(self).blocks(), old(self).difficulty(), old(self).config()),
            final(self).config() == old(self).config(),
    {
        let n = self.blocks.len();
        let scratch = match check_admission(Ghost(self.blocks@), &self.blocks[n - 1], &block, &self.balances) {
            Err(e) => {
                return Err(e);
            },
            Ok(l) => l,
        };
        proof {
            lemma_ledger_after_push(self.blocks(), block, n as nat);
            lemma_chain_valid_push(self.blocks(), block);
        }
        self.balances = scratch;
        self.pending = without_included(&self.pending, &block.transactions);
        let index = block.index;
        self.blocks.push(block);
        let interval = self.config.retarget_interval;
        let len = self.blocks.len();
        proof {
            lemma_indices(self.blocks(), len - 1);
            assert(index + 1 == len);
        }
        if (index as u64 + 1) % (interval as u64) == 0 {
            let start = if len > interval as usize {
                self.blocks[len - interval as usize - 1].timestamp
            } else {
                self.blocks[0].timestamp
            };
            let end = self.blocks[len - 1].timestamp;
            let elapsed = if end >= start { end - start } else { 0 };
            let current = difficulty_bytes_as_u128(&self.difficulty);
            let next = retarget(current, elapsed, &self.config);
            self.difficulty = target_bytes(next);
        }
        Ok(())
    }

    /// An unmined block that would follow the tip, holding copies of the pending
    /// transactions, stamped `timestamp`, under the current target.
    pub fn assemble_candidate(&self, timestamp: u128) -> (r: Block)
        requires
            self.wf(),
            self.blocks().last().index < u32::MAX,
        ensures
            r.index == self.blocks().last().index + 1,
            r.timestamp == timestamp,
            r.prev_block_hash@ == sha256_of(self.blocks().last().encoded()),
            same_transfers(r.transactions@, self.pending()),
            r.difficulty@ == self.difficulty(),
            r.nonce == 0,
            r.hash@.len() == 0,
    {
        let tip = &self.blocks[self.blocks.len() - 1];
        Block::candidate(
            tip.index + 1,
            timestamp,
            tip.hash(),
            copy_transactions(&self.pending),
            slice_to_vec(self.difficulty.as_slice()),
        )
    }

    /// `assemble_candidate` stamped with the wall-clock time.
    pub fn assemble_candidate_now(&self) -> (r: Option<Block>)
        requires
            self.wf(),
            self.blocks().last().index < u32::MAX,
        ensures
            r matches Some(b) ==> b.index == self.blocks().last().index + 1
                && b.timestamp <= crate::MAX_CLOCK_MILLIS
                && b.prev_block_hash@ == sha256_of(self.blocks().last().encoded())
                && same_transfers(b.transactions@, self.pending())
                && b.difficulty@ == self.difficulty()
                && b.nonce == 0
                && b.hash@.len() == 0,
    {
        match now() {
            Some(t) => Some(self.assemble_candidate(t)),
            None => None,
        }
    }
}

} // verus!
