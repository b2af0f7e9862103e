//! Bet sizes and their resolution into chip amounts.
//!
//! A bet size is a rule ("60% of the pot", "2.5 times the previous bet", "all
//! in"); resolving it at a decision turns it into the amount of chips the
//! player has in front of them on this street once the bet is made. Fractions
//! are held in thousandths, so every amount is the result of exact integer
//! arithmetic.

use vstd::prelude::*;

verus! {

/// One bet-size rule.
#[derive(Clone, Copy, Debug, PartialEq, Eq, Structural)]
pub enum BetSize {
    /// A fraction of the pot, in thousandths (`600` is 60% of the pot). For a
    /// raise the pot is taken after the call, and the fraction is added on top
    /// of the bet that is called.
    PotRelative(u32),
    /// A multiple of the bet that is faced, in thousandths (`2500` raises to
    /// 2.5 times the bet). Applies to raises only.
    PrevBetRelative(u32),
    /// A fixed number of chips, added on top of the bet that is called.
    Fixed(u32),
    /// The bet that, repeated in the same proportion of the pot on each of the
    /// given number of streets, puts the stack in on the last of them; `0`
    /// streets stands for the streets that are left. The second field caps the
    /// bet, in thousandths of the pot.
    Geometric(u32, u32),
    /// The whole remaining stack.
    AllIn,
}

/// The bet sizes a player chooses from on one street: `bet` when no bet has
/// been made, `raise` when facing one.
#[derive(Debug)]
pub struct BetSizeOptions {
    pub bet: Vec<BetSize>,
    pub raise: Vec<BetSize>,
}

impl Default for BetSizeOptions {
    /// No bet size and no raise size.
    fn default() -> (r: Self)
        ensures
            r.bet@ == Seq::<BetSize>::empty(),
            r.raise@ == Seq::<BetSize>::empty(),
    {
        BetSizeOptions { bet: Vec::new(), raise: Vec::new() }
    }
}

/// Largest pot the arithmetic here is asked to handle: a starting pot and two
/// stacks of `i32::MAX` chips each.
pub const POT_LIMIT: i64 = 6442450941;

/// What sizing needs to know about a decision.
#[derive(Clone, Copy, Debug)]
pub struct Sizing {
    /// The pot once the bet that is faced has been called.
    pub pot: i64,
    /// The bet that is faced, `0` when there is none.
    pub prior: i32,
    /// The smallest amount a bet or raise may be made to.
    pub min: i32,
    /// The amount that puts the player all in.
    pub max: i32,
    /// Streets still to be played, the current one included.
    pub streets_left: u32,
    /// Bets within this fraction of the pot (in thousandths) of being all in
    /// are turned into all-in bets.
    pub force_allin_threshold: u32,
}

impl Sizing {
    /// The amounts are in range and ordered: a raise is possible.
    pub open spec fn wf(self) -> bool {
        &&& 0 < self.pot <= POT_LIMIT
        &&& 0 <= self.prior < self.min <= self.max
        &&& 1 <= self.streets_left <= 3
    }
}

/// `per_mille` thousandths of `base`, rounded to the nearest chip (halves up).
pub open spec fn scaled(base: int, per_mille: int) -> int {
    (base * per_mille + 500) / 1000
}

/// `x` raised to the power `n`, for the powers up to the third.
pub open spec fn power(x: int, n: int) -> int {
    if n <= 0 {
        1
    } else if n == 1 {
        x
    } else if n == 2 {
        x * x
    } else {
        x * x * x
    }
}

/// Whether a bet of `b` into `pot`, repeated in the same proportion of the
/// growing pot on `n` streets, stays within a stack of `stack` chips: after
/// `n` such bets and calls the pot has grown by the factor `(1 + 2b/pot)^n`,
/// which must not exceed `1 + 2 stack/pot`.
pub open spec fn geometric_fits(pot: int, stack: int, n: int, b: int) -> bool {
    power(pot + 2 * b, n) <= power(pot, n - 1) * (pot + 2 * stack)
}

/// The largest bet not above `b` that fits `n` times, or `0`.
pub open spec fn largest_fit(pot: int, stack: int, n: int, b: int) -> int
    decreases b,
{
    if b <= 0 {
        0
    } else if geometric_fits(pot, stack, n, b) {
        b
    } else {
        largest_fit(pot, stack, n, b - 1)
    }
}

/// The geometric bet: the largest bet of at most `stack` chips that fits `n`
/// times.
pub open spec fn geometric_amount(pot: int, stack: int, n: int) -> int {
    largest_fit(pot, stack, n, stack)
}

/// `x` limited to the range from `lo` to `hi`.
pub open spec fn clamp(x: int, lo: int, hi: int) -> int {
    if x < lo {
        lo
    } else if x > hi {
        hi
    } else {
        x
    }
}

/// Whether a bet-size rule is usable: a geometric size spreads over at most
/// three streets.
pub open spec fn bet_size_ok(size: BetSize) -> bool {
    size matches BetSize::Geometric(n, _) ==> n <= 3
}

/// Whether all rules of a list are usable.
pub open spec fn bet_sizes_ok(sizes: Seq<BetSize>) -> bool {
    forall|i: int| 0 <= i < sizes.len() ==> bet_size_ok(#[trigger] sizes[i])
}

impl Sizing {
    /// The number of streets a geometric size spreads over.
    pub open spec fn streets(self, n: u32) -> int {
        if n == 0 {
            self.streets_left as int
        } else {
            n as int
        }
    }

    /// The amount a rule asks for, before limits are applied. A multiple of the
    /// previous bet asks for nothing when there is no previous bet.
    pub open spec fn raw_amount(self, size: BetSize) -> Option<int> {
        match size {
            BetSize::PotRelative(p) => Some(self.prior + scaled(self.pot as int, p as int)),
            BetSize::PrevBetRelative(m) => if self.prior > 0 {
                Some(scaled(self.prior as int, m as int))
            } else {
                None
            },
            BetSize::Fixed(a) => Some(self.prior + a),
            BetSize::Geometric(n, cap) => {
                let geometric = geometric_amount(
                    self.pot as int,
                    self.max - self.prior,
                    self.streets(n),
                );
                let limit = scaled(self.pot as int, cap as int);
                Some(self.prior + if geometric <= limit { geometric } else { limit })
            },
            BetSize::AllIn => Some(self.max as int),
        }
    }

    /// Applies the limits to an amount: it is clamped between the smallest
    /// legal amount and the all-in amount, and becomes all in when what would
    /// be left behind is at most the threshold fraction of the pot after the
    /// bet is called.
    pub open spec fn settle(self, amount: int) -> i32 {
        let c = clamp(amount, self.min as int, self.max as int);
        let new_pot = self.pot + 2 * (c - self.prior);
        if self.max <= c + scaled(new_pot, self.force_allin_threshold as int) {
            self.max
        } else {
            c as i32
        }
    }

    /// The amount a rule resolves to at this decision, if it applies.
    pub open spec fn candidate(self, size: BetSize) -> Option<i32> {
        match self.raw_amount(size) {
            Some(x) => Some(self.settle(x)),
            None => None,
        }
    }
}

/// Whether a sequence of amounts is strictly increasing.
pub open spec fn strictly_increasing(s: Seq<i32>) -> bool {
    forall|i: int, j: int| 0 <= i < j < s.len() ==> s[i] < s[j]
}

/// `a` put in its place in an increasing sequence, unless it is there already.
pub open spec fn insert_sorted(s: Seq<i32>, a: i32) -> Seq<i32>
    decreases s.len(),
{
    if s.len() == 0 {
        seq![a]
    } else if a > s.last() {
        s.push(a)
    } else if a == s.last() {
        s
    } else {
        insert_sorted(s.drop_last(), a).push(s.last())
    }
}

/// The amounts short of all in that the rules resolve to, in increasing order
/// and each once.
pub open spec fn sized_amounts(sizes: Seq<BetSize>, ctx: Sizing) -> Seq<i32>
    decreases sizes.len(),
{
    if sizes.len() == 0 {
        Seq::empty()
    } else {
        let rest = sized_amounts(sizes.drop_last(), ctx);
        match ctx.candidate(sizes.last()) {
            Some(c) => if c < ctx.max {
                insert_sorted(rest, c)
            } else {
                rest
            },
            None => rest,
        }
    }
}

/// Whether one of the rules resolves to all in.
pub open spec fn asks_all_in(sizes: Seq<BetSize>, ctx: Sizing) -> bool {
    exists|i: int| 0 <= i < sizes.len() && #[trigger] ctx.candidate(sizes[i]) == Some(ctx.max)
}

/// Increasing amounts thinned out so that neighbours are at least `gap` apart:
/// going up from the smallest, an amount is dropped when it is less than `gap`
/// above the last amount kept.
pub open spec fn merged(s: Seq<i32>, gap: int) -> Seq<i32>
    decreases s.len(),
{
    if s.len() == 0 {
        s
    } else {
        let m = merged(s.drop_last(), gap);
        if m.len() > 0 && s.last() - m.last() < gap {
            m
        } else {
            m.push(s.last())
        }
    }
}

/// The sized bets offered at a decision: the amounts the rules resolve to,
/// ordered, deduplicated, and merged where they are closer than the merging
/// threshold (a fraction of the pot, in thousandths).
pub open spec fn resolved_amounts(sizes: Seq<BetSize>, ctx: Sizing, merging: u32) -> Seq<i32> {
    merged(sized_amounts(sizes, ctx), scaled(ctx.pot as int, merging as int))
}

/// Whether all in is offered at a decision. It is when a rule resolves to it.
/// Otherwise it is added when the all-in amount is at most one and a half
/// times the largest sized bet, unless the smallest sized bet is already
/// `add_allin` thousandths of the pot or more.
pub open spec fn resolved_all_in(
    sizes: Seq<BetSize>,
    ctx: Sizing,
    merging: u32,
    add_allin: u32,
) -> bool {
    let amounts = resolved_amounts(sizes, ctx, merging);
    asks_all_in(sizes, ctx) || (amounts.len() > 0 && 2 * ctx.max <= 3 * amounts.last()
        && amounts[0] < scaled(ctx.pot as int, add_allin as int))
}

/// The bets offered at one decision.
#[derive(Debug)]
pub struct Resolved {
    /// The sized bets, in increasing order, all short of all in.
    pub amounts: Vec<i32>,
    /// Whether all in is offered, as the last option.
    pub all_in: bool,
}

proof fn lemma_product_bound(x: int, y: int, bx: int, by: int)
    by (nonlinear_arith)
    requires
        0 <= x <= bx,
        0 <= y <= by,
    ensures
        0 <= x * y <= bx * by,
{
}

proof fn lemma_power_monotone(x: int, y: int, n: int)
    requires
        0 <= x <= y,
    ensures
        power(x, n) <= power(y, n),
{
    lemma_product_bound(x, x, y, y);
    lemma_product_bound(x * x, x, y * y, y);
}

/// A bet that does not fit leaves no larger bet that fits.
proof fn lemma_fits_monotone(pot: int, stack: int, n: int, b: int, c: int)
    requires
        0 <= pot,
        0 <= b <= c,
        !geometric_fits(pot, stack, n, b),
    ensures
        !geometric_fits(pot, stack, n, c),
{
    lemma_power_monotone(pot + 2 * b, pot + 2 * c, n);
}

proof fn lemma_largest_fit(pot: int, stack: int, n: int, r: int, b: int)
    requires
        0 <= r <= b,
        r == 0 || geometric_fits(pot, stack, n, r),
        forall|c: int| r < c <= b ==> !geometric_fits(pot, stack, n, c),
    ensures
        largest_fit(pot, stack, n, b) == r,
    decreases b - r,
{
    if b > r {
        lemma_largest_fit(pot, stack, n, r, b - 1);
    }
}

/// `per_mille` thousandths of `base`, rounded to the nearest chip.
fn scale(base: i64, per_mille: u32) -> (r: i64)
    requires
        0 <= base <= 4 * POT_LIMIT,
    ensures
        r == scaled(base as int, per_mille as int),
        0 <= r <= 200_000_000_000_000_000,
{
    let b: u128 = base as u128;
    let p: u128 = per_mille as u128;
    proof {
        lemma_product_bound(b as int, p as int, 4 * POT_LIMIT as int, 0xffff_ffff);
    }
    assert(b * p <= 4 * 6442450941 * 0xffff_ffff);
    let q: u128 = (b * p + 500) / 1000;
    q as i64
}

fn fits(pot: i64, stack: i64, n: u32, b: i64) -> (r: bool)
    requires
        0 < pot <= POT_LIMIT,
        0 <= b <= stack <= 0x7fff_ffff,
        1 <= n <= 3,
    ensures
        r == geometric_fits(pot as int, stack as int, n as int, b as int),
{
    let x: u128 = (pot + 2 * b) as u128;
    let p: u128 = pot as u128;
    let y: u128 = (pot + 2 * stack) as u128;
    let limit: u128 = 0x4_0000_0000;
    proof {
        lemma_product_bound(x as int, x as int, limit as int, limit as int);
        lemma_product_bound((x * x) as int, x as int, (limit * limit) as int, limit as int);
        lemma_product_bound(p as int, p as int, limit as int, limit as int);
        lemma_product_bound(p as int, y as int, limit as int, limit as int);
        lemma_product_bound((p * p) as int, y as int, (limit * limit) as int, limit as int);
    }
    if n == 1 {
        x <= y
    } else if n == 2 {
        x * x <= p * y
    } else {
        x * x * x <= p * p * y
    }
}

/// The geometric bet for `n` streets into `pot` with `stack` chips behind.
fn geometric(pot: i64, stack: i64, n: u32) -> (r: i64)
    requires
        0 < pot <= POT_LIMIT,
        0 <= stack <= 0x7fff_ffff,
        1 <= n <= 3,
    ensures
        r == geometric_amount(pot as int, stack as int, n as int),
        0 <= r <= stack,
{
    let mut lo: i64 = 0;
    let mut hi: i64 = stack;
    while lo < hi
        invariant
            0 < pot <= POT_LIMIT,
            0 <= lo <= hi <= stack <= 0x7fff_ffff,
            1 <= n <= 3,
            lo == 0 || geometric_fits(pot as int, stack as int, n as int, lo as int),
            forall|c: int| hi < c <= stack ==> !geometric_fits(pot as int, stack as int, n as int, c),
        decreases hi - lo,
    {
        let mid = lo + (hi - lo + 1) / 2;
        if fits(pot, stack, n, mid) {
            lo = mid;
        } else {
            proof {
                assert forall|c: int| mid <= c <= stack implies !geometric_fits(
                    pot as int,
                    stack as int,
                    n as int,
                    c,
                ) by {
                    lemma_fits_monotone(pot as int, stack as int, n as int, mid as int, c);
                }
            }
            hi = mid - 1;
        }
    }
    proof {
        lemma_largest_fit(pot as int, stack as int, n as int, lo as int, stack as int);
    }
    lo
}

impl Sizing {
    /// The amount a rule resolves to at this decision, if it applies.
    pub fn resolve_one(&self, size: BetSize) -> (r: Option<i32>)
        requires
            self.wf(),
            bet_size_ok(size),
        ensures
            r == self.candidate(size),
            r matches Some(c) ==> self.min <= c <= self.max,
    {
        let raw: i64 = match size {
            BetSize::PotRelative(p) => self.prior as i64 + scale(self.pot, p),
            BetSize::PrevBetRelative(m) => {
                if self.prior > 0 {
                    scale(self.prior as i64, m)
                } else {
                    return None;
                }
            },
            BetSize::Fixed(a) => self.prior as i64 + a as i64,
            BetSize::Geometric(n, cap) => {
                let streets = if n == 0 { self.streets_left } else { n };
                let geometric = geometric(self.pot, (self.max - self.prior) as i64, streets);
                let limit = scale(self.pot, cap);
                self.prior as i64 + if geometric <= limit { geometric } else { limit }
            },
            BetSize::AllIn => self.max as i64,
        };
        let c: i64 = if raw < self.min as i64 {
            self.min as i64
        } else if raw > self.max as i64 {
            self.max as i64
        } else {
            raw
        };
        let new_pot: i64 = self.pot + 2 * (c - self.prior as i64);
        let margin = scale(new_pot, self.force_allin_threshold);
        if self.max as i64 <= c + margin {
            Some(self.max)
        } else {
            Some(c as i32)
        }
    }
}

/// Inserting keeps a sequence increasing and adds exactly the new amount.
pub proof fn lemma_insert_sorted(s: Seq<i32>, a: i32)
    requires
        strictly_increasing(s),
    ensures
        strictly_increasing(insert_sorted(s, a)),
        forall|x: i32| #[trigger] insert_sorted(s, a).contains(x) <==> (x == a || s.contains(x)),
        insert_sorted(s, a).len() >= 1,
    decreases s.len(),
{
    let r = insert_sorted(s, a);
    if s.len() == 0 {
        assert(r[0] == a);
        assert forall|x: i32| r.contains(x) <==> (x == a || s.contains(x)) by {
            if r.contains(x) {
                let k = choose|k: int| 0 <= k < r.len() && r[k] == x;
            }
        }
    } else if a > s.last() {
        assert forall|i: int, j: int| 0 <= i < j < r.len() implies r[i] < r[j] by {
            if j == s.len() {
                assert(s[i] <= s.last());
            }
        }
        assert forall|x: i32| r.contains(x) <==> (x == a || s.contains(x)) by {
            if r.contains(x) {
                let k = choose|k: int| 0 <= k < r.len() && r[k] == x;
                if k < s.len() {
                    assert(s[k] == x);
                }
            }
            if x == a {
                assert(r[s.len() as int] == a);
            }
            if s.contains(x) {
                let k = choose|k: int| 0 <= k < s.len() && s[k] == x;
                assert(r[k] == x);
            }
        }
    } else if a == s.last() {
        assert(s[s.len() - 1] == a);
    } else {
        let d = s.drop_last();
        let t = insert_sorted(d, a);
        assert(strictly_increasing(d));
        lemma_insert_sorted(d, a);
        assert forall|x: i32| t.contains(x) implies x < s.last() by {
            if x != a {
                let k = choose|k: int| 0 <= k < d.len() && d[k] == x;
                assert(s[k] == x);
            }
        }
        assert forall|i: int, j: int| 0 <= i < j < r.len() implies r[i] < r[j] by {
            if j == t.len() {
                assert(t.contains(t[i]));
            }
        }
        assert forall|x: i32| r.contains(x) <==> (x == a || s.contains(x)) by {
            if r.contains(x) {
                let k = choose|k: int| 0 <= k < r.len() && r[k] == x;
                if k < t.len() {
                    assert(t.contains(x));
                    if x != a {
                        let m = choose|m: int| 0 <= m < d.len() && d[m] == x;
                        assert(s[m] == x);
                    }
                } else {
                    assert(s[s.len() - 1] == x);
                }
            }
            if x == a || s.contains(x) {
                if x == s.last() {
                    assert(r[t.len() as int] == x);
                } else {
                    if x != a {
                        let m = choose|m: int| 0 <= m < s.len() && s[m] == x;
                        assert(d[m] == x);
                    }
                    assert(t.contains(x));
                    let k = choose|k: int| 0 <= k < t.len() && t[k] == x;
                    assert(r[k] == x);
                }
            }
        }
    }
}

proof fn lemma_insert_at(s: Seq<i32>, a: i32, i: int)
    requires
        strictly_increasing(s),
        0 <= i <= s.len(),
        forall|j: int| 0 <= j < i ==> s[j] < a,
        i < s.len() ==> a <= s[i],
    ensures
        insert_sorted(s, a) == if i < s.len() && s[i] == a {
            s
        } else {
            s.insert(i, a)
        },
    decreases s.len(),
{
    if s.len() == 0 {
        assert(seq![a] =~= s.insert(i, a));
    } else if a > s.last() {
        assert(i == s.len());
        assert(s.push(a) =~= s.insert(i, a));
    } else if a == s.last() {
        if i < s.len() - 1 {
            assert(s[i] < s[s.len() - 1]);
        }
    } else {
        let d = s.drop_last();
        assert(i < s.len());
        if i == s.len() - 1 {
            assert(s[i] == s.last());
        }
        lemma_insert_at(d, a, i);
        if i < d.len() && d[i] == a {
            assert(d.push(s.last()) =~= s);
        } else {
            assert(d.insert(i, a).push(s.last()) =~= s.insert(i, a));
        }
    }
}

/// The sized amounts are increasing, and an amount is among them exactly when
/// it is short of all in and one of the rules resolves to it.
pub proof fn lemma_sized_amounts(sizes: Seq<BetSize>, ctx: Sizing)
    ensures
        strictly_increasing(sized_amounts(sizes, ctx)),
        forall|x: i32|
            #[trigger] sized_amounts(sizes, ctx).contains(x) <==> (x < ctx.max && exists|i: int|
                0 <= i < sizes.len() && #[trigger] ctx.candidate(sizes[i]) == Some(x)),
    decreases sizes.len(),
{
    let r = sized_amounts(sizes, ctx);
    if sizes.len() == 0 {
        assert forall|x: i32| !r.contains(x) by {
            if r.contains(x) {
                let k = choose|k: int| 0 <= k < r.len() && r[k] == x;
            }
        }
    } else {
        let d = sizes.drop_last();
        let rest = sized_amounts(d, ctx);
        lemma_sized_amounts(d, ctx);
        let last = ctx.candidate(sizes.last());
        if last is Some {
            lemma_insert_sorted(rest, last->Some_0);
        }
        assert forall|x: i32|
            r.contains(x) <==> (x < ctx.max && exists|i: int|
                0 <= i < sizes.len() && #[trigger] ctx.candidate(sizes[i]) == Some(x)) by {
            if r.contains(x) {
                if rest.contains(x) {
                    let k = choose|k: int|
                        0 <= k < d.len() && #[trigger] ctx.candidate(d[k]) == Some(x);
                    assert(ctx.candidate(sizes[k]) == Some(x));
                } else {
                    assert(ctx.candidate(sizes[sizes.len() - 1]) == Some(x));
                }
            }
            if x < ctx.max && exists|i: int|
                0 <= i < sizes.len() && #[trigger] ctx.candidate(sizes[i]) == Some(x) {
                let k = choose|k: int|
                    0 <= k < sizes.len() && #[trigger] ctx.candidate(sizes[k]) == Some(x);
                if k < d.len() {
                    assert(ctx.candidate(d[k]) == Some(x));
                    assert(rest.contains(x));
                }
            }
        }
    }
}

/// Merging keeps a subsequence: the result is increasing, holds amounts of the
/// input only, starts with the smallest of them, and its neighbours are at
/// least `gap` apart.
pub proof fn lemma_merged(s: Seq<i32>, gap: int)
    requires
        strictly_increasing(s),
    ensures
        strictly_increasing(merged(s, gap)),
        forall|x: i32| #[trigger] merged(s, gap).contains(x) ==> s.contains(x),
        s.len() > 0 ==> merged(s, gap).len() > 0 && merged(s, gap)[0] == s[0],
        forall|i: int|
            0 < i < merged(s, gap).len() ==> #[trigger] merged(s, gap)[i] - merged(s, gap)[i - 1]
                >= gap,
    decreases s.len(),
{
    let r = merged(s, gap);
    if s.len() > 0 {
        let d = s.drop_last();
        let m = merged(d, gap);
        lemma_merged(d, gap);
        assert forall|x: i32| m.contains(x) implies s.contains(x) && x < s.last() by {
            let k = choose|k: int| 0 <= k < d.len() && d[k] == x;
            assert(s[k] == x);
        }
        if !(m.len() > 0 && s.last() - m.last() < gap) {
            assert forall|i: int, j: int| 0 <= i < j < r.len() implies r[i] < r[j] by {
                if j == m.len() {
                    assert(m.contains(m[i]));
                }
            }
            assert forall|x: i32| r.contains(x) implies s.contains(x) by {
                let k = choose|k: int| 0 <= k < r.len() && r[k] == x;
                if k < m.len() {
                    assert(m.contains(x));
                } else {
                    assert(s[s.len() - 1] == x);
                }
            }
            if d.len() > 0 {
                assert(d[0] == s[0]);
            }
        } else {
            assert(d[0] == s[0]);
        }
    }
}

fn insert_amount(v: &mut Vec<i32>, a: i32)
    requires
        strictly_increasing(old(v)@),
    ensures
        final(v)@ == insert_sorted(old(v)@, a),
{
    let mut i: usize = 0;
    while i < v.len() && v[i] < a
        invariant
            i <= v.len(),
            v@ == old(v)@,
            forall|j: int| 0 <= j < i ==> v@[j] < a,
        decreases v.len() - i,
    {
        i += 1;
    }
    proof {
        lemma_insert_at(v@, a, i as int);
    }
    if i < v.len() && v[i] == a {
    } else {
        v.insert(i, a);
    }
}

fn collect_amounts(sizes: &Vec<BetSize>, ctx: &Sizing) -> (r: (Vec<i32>, bool))
    requires
        ctx.wf(),
        bet_sizes_ok(sizes@),
    ensures
        r.0@ == sized_amounts(sizes@, *ctx),
        r.1 == asks_all_in(sizes@, *ctx),
{
    let mut amounts: Vec<i32> = Vec::new();
    let mut all_in = false;
    let mut i: usize = 0;
    while i < sizes.len()
        invariant
            ctx.wf(),
            bet_sizes_ok(sizes@),
            i <= sizes.len(),
            amounts@ == sized_amounts(sizes@.take(i as int), *ctx),
            all_in == asks_all_in(sizes@.take(i as int), *ctx),
        decreases sizes.len() - i,
    {
        let ghost before = sizes@.take(i as int);
        let ghost after = sizes@.take(i + 1);
        proof {
            assert(after.drop_last() =~= before);
            assert(after.last() == sizes@[i as int]);
            lemma_sized_amounts(before, *ctx);
        }
        match ctx.resolve_one(sizes[i]) {
            Some(c) => {
                if c < ctx.max {
                    insert_amount(&mut amounts, c);
                } else {
                    all_in = true;
                    assert(ctx.candidate(after[i as int]) == Some(ctx.max));
                }
            },
            None => {},
        }
        proof {
            if asks_all_in(before, *ctx) {
                let k = choose|k: int|
                    0 <= k < before.len() && #[trigger] ctx.candidate(before[k]) == Some(ctx.max);
                assert(ctx.candidate(after[k]) == Some(ctx.max));
            }
            if asks_all_in(after, *ctx) {
                let k = choose|k: int|
                    0 <= k < after.len() && #[trigger] ctx.candidate(after[k]) == Some(ctx.max);
                if k < i {
                    assert(ctx.candidate(before[k]) == Some(ctx.max));
                }
            }
        }
        i += 1;
    }
    assert(sizes@.take(i as int) =~= sizes@);
    (amounts, all_in)
}

fn merge_amounts(amounts: &Vec<i32>, gap: i64) -> (m: Vec<i32>)
    ensures
        m@ == merged(amounts@, gap as int),
{
    let mut m: Vec<i32> = Vec::new();
    let mut i: usize = 0;
    while i < amounts.len()
        invariant
            i <= amounts.len(),
            m@ == merged(amounts@.take(i as int), gap as int),
        decreases amounts.len() - i,
    {
        proof {
            assert(amounts@.take(i + 1).drop_last() =~= amounts@.take(i as int));
        }
        let a = amounts[i];
        if m.len() > 0 && (a as i64 - m[m.len() - 1] as i64) < gap {
        } else {
            m.push(a);
        }
        i += 1;
    }
    assert(amounts@.take(i as int) =~= amounts@);
    m
}

/// Resolves the bet sizes of one decision.
///
/// The sized bets come back in increasing order, each once, each a legal
/// amount short of all in; all in is reported apart, to be offered last.
pub fn resolve(sizes: &Vec<BetSize>, ctx: &Sizing, merging: u32, add_allin: u32) -> (r: Resolved)
    requires
        ctx.wf(),
        bet_sizes_ok(sizes@),
    ensures
        r.amounts@ == resolved_amounts(sizes@, *ctx, merging),
        r.all_in == resolved_all_in(sizes@, *ctx, merging, add_allin),
        strictly_increasing(r.amounts@),
        forall|i: int| 0 <= i < r.amounts@.len() ==> ctx.min <= #[trigger] r.amounts@[i] < ctx.max,
{
    let (sized, asked) = collect_amounts(sizes, ctx);
    let gap = scale(ctx.pot, merging);
    let amounts = merge_amounts(&sized, gap);
    proof {
        lemma_resolved_amounts(sizes@, *ctx, merging);
    }
    let n = amounts.len();
    let all_in = asked || (n > 0 && 2 * (ctx.max as i64) <= 3 * (amounts[n - 1] as i64)
        && (amounts[0] as i64) < scale(ctx.pot, add_allin));
    Resolved { amounts, all_in }
}

/// The sized bets of a decision are increasing, and each is a legal amount
/// short of all in.
pub proof fn lemma_resolved_amounts(sizes: Seq<BetSize>, ctx: Sizing, merging: u32)
    requires
        ctx.wf(),
    ensures
        strictly_increasing(resolved_amounts(sizes, ctx, merging)),
        forall|i: int|
            0 <= i < resolved_amounts(sizes, ctx, merging).len() ==> ctx.min
                <= #[trigger] resolved_amounts(sizes, ctx, merging)[i] < ctx.max,
{
    let sized = sized_amounts(sizes, ctx);
    let gap = scaled(ctx.pot as int, merging as int);
    let r = resolved_amounts(sizes, ctx, merging);
    lemma_sized_amounts(sizes, ctx);
    lemma_merged(sized, gap);
    assert forall|i: int| 0 <= i < r.len() implies ctx.min <= #[trigger] r[i] < ctx.max by {
        assert(r.contains(r[i]));
        assert(sized.contains(r[i]));
        let k = choose|k: int|
            0 <= k < sizes.len() && #[trigger] ctx.candidate(sizes[k]) == Some(r[i]);
        lemma_candidate_range(ctx, sizes[k]);
    }
}

/// Every amount a rule resolves to is a legal amount.
pub proof fn lemma_candidate_range(ctx: Sizing, size: BetSize)
    requires
        ctx.wf(),
    ensures
        ctx.candidate(size) matches Some(c) ==> ctx.min <= c <= ctx.max,
{
}

} // verus!
