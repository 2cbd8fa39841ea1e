use vstd::prelude::*;

verus! {

/// The weight of the high limb: 2^128.
pub open spec fn limb_base() -> nat {
    u128::MAX as nat + 1
}

/// One more than the largest value a `U256` holds: 2^256.
pub open spec fn u256_bound() -> nat {
    limb_base() * limb_base()
}

/// Prices below this bound keep the top bit free for the side flag of a level key.
pub open spec fn price_bound() -> nat {
    u256_bound() / 2
}

/// A 256-bit unsigned integer, as two 128-bit limbs.
/// Zero doubles as the "none" sentinel of every linked-list pointer and id.
#[derive(Clone, Copy, Debug, PartialEq, Eq, Structural, Hash)]
pub struct U256 {
    pub hi: u128,
    pub lo: u128,
}

impl View for U256 {
    type V = nat;

    open spec fn view(&self) -> nat {
        self.hi as nat * limb_base() + self.lo as nat
    }
}

/// The map key under which a value is stored: its two limbs.
pub open spec fn key_of(x: U256) -> (u128, u128) {
    (x.hi, x.lo)
}

/// Zero: the "none" sentinel.
pub open spec fn zero_u256() -> U256 {
    U256 { hi: 0, lo: 0 }
}

pub proof fn lemma_view_order(a: U256, b: U256)
    ensures
        (a@ < b@) == (a.hi < b.hi || (a.hi == b.hi && a.lo < b.lo)),
        (a@ == b@) == (a == b),
        a@ < u256_bound(),
{
    let bb = limb_base();
    if a.hi < b.hi {
        assert(a.hi as nat * bb + bb <= b.hi as nat * bb) by (nonlinear_arith)
            requires
                a.hi < b.hi,
        ;
    } else if b.hi < a.hi {
        assert(b.hi as nat * bb + bb <= a.hi as nat * bb) by (nonlinear_arith)
            requires
                b.hi < a.hi,
        ;
    }
    assert(a.hi as nat * bb + bb <= bb * bb) by (nonlinear_arith)
        requires
            a.hi as nat + 1 <= bb,
    ;
}

pub proof fn lemma_zero_view(a: U256)
    ensures
        (a@ == 0) == (a.hi == 0 && a.lo == 0),
{
    lemma_view_order(a, U256 { hi: 0, lo: 0 });
}

impl U256 {
    pub fn zero() -> (r: U256)
        ensures
            r@ == 0,
            r == zero_u256(),
    {
        U256 { hi: 0, lo: 0 }
    }

    pub fn from_u128(x: u128) -> (r: U256)
        ensures
            r@ == x as nat,
    {
        U256 { hi: 0, lo: x }
    }

    pub fn is_zero(&self) -> (r: bool)
        ensures
            r == (self@ == 0),
    {
        proof {
            lemma_zero_view(*self);
        }
        self.hi == 0 && self.lo == 0
    }

    pub fn key(&self) -> (r: (u128, u128))
        ensures
            r == key_of(*self),
    {
        (self.hi, self.lo)
    }

    pub fn lt(&self, o: &U256) -> (r: bool)
        ensures
            r == (self@ < o@),
    {
        proof {
            lemma_view_order(*self, *o);
        }
        self.hi < o.hi || (self.hi == o.hi && self.lo < o.lo)
    }

    pub fn le(&self, o: &U256) -> (r: bool)
        ensures
            r == (self@ <= o@),
    {
        proof {
            lemma_view_order(*self, *o);
        }
        self.hi < o.hi || (self.hi == o.hi && self.lo <= o.lo)
    }

    pub fn min(&self, o: &U256) -> (r: U256)
        ensures
            r@ == if self@ <= o@ { self@ } else { o@ },
    {
        if self.le(o) {
            *self
        } else {
            *o
        }
    }

    /// The sum, or the largest value where the sum does not fit.
    pub fn saturating_add(&self, o: &U256) -> (r: U256)
        ensures
            r@ == if self@ + o@ < u256_bound() { self@ + o@ } else { (u256_bound() - 1) as nat },
    {
        proof {
            lemma_view_order(*self, *o);
        }
        let ghost bb = limb_base();
        let lo: u128;
        let carry: u128;
        if self.lo <= u128::MAX - o.lo {
            lo = self.lo + o.lo;
            carry = 0;
        } else {
            lo = self.lo - (u128::MAX - o.lo) - 1;
            carry = 1;
        }
        assert(self.lo as nat + o.lo as nat == lo as nat + carry as nat * bb);
        if self.hi <= u128::MAX - o.hi && self.hi + o.hi <= u128::MAX - carry {
            let r = U256 { hi: self.hi + o.hi + carry, lo };
            assert(r.hi as nat * bb + r.lo as nat == (self.hi as nat * bb + self.lo as nat) + (
            o.hi as nat * bb + o.lo as nat)) by (nonlinear_arith)
                requires
                    r.hi == self.hi + o.hi + carry,
                    self.lo as nat + o.lo as nat == lo as nat + carry as nat * bb,
                    r.lo == lo,
            ;
            proof {
                lemma_view_order(r, r);
            }
            r
        } else {
            let r = U256 { hi: u128::MAX, lo: u128::MAX };
            assert(self@ + o@ >= u256_bound()) by (nonlinear_arith)
                requires
                    self.hi as nat + o.hi as nat + carry as nat > u128::MAX as nat,
                    self.lo as nat + o.lo as nat == lo as nat + carry as nat * bb,
                    bb == u128::MAX as nat + 1,
            ;
            assert(r@ == u256_bound() - 1) by (nonlinear_arith)
                requires
                    r.hi == u128::MAX,
                    r.lo == u128::MAX,
                    bb == u128::MAX as nat + 1,
            ;
            r
        }
    }

    /// The sum; the caller guarantees that it fits.
    pub fn add(&self, o: &U256) -> (r: U256)
        requires
            self@ + o@ < u256_bound(),
        ensures
            r@ == self@ + o@,
    {
        self.saturating_add(o)
    }

    /// The difference; the caller guarantees it is not negative.
    pub fn sub(&self, o: &U256) -> (r: U256)
        requires
            o@ <= self@,
        ensures
            r@ == self@ - o@,
    {
        proof {
            lemma_view_order(*self, *o);
        }
        let ghost bb = limb_base();
        if o.lo <= self.lo {
            let r = U256 { hi: self.hi - o.hi, lo: self.lo - o.lo };
            assert(r@ == self@ - o@) by (nonlinear_arith)
                requires
                    r.hi == self.hi - o.hi,
                    r.lo == self.lo - o.lo,
            ;
            r
        } else {
            let r = U256 { hi: self.hi - o.hi - 1, lo: (u128::MAX - o.lo) + self.lo + 1 };
            assert(r@ == self@ - o@) by (nonlinear_arith)
                requires
                    r.hi == self.hi - o.hi - 1,
                    r.lo as nat == bb - o.lo as nat + self.lo as nat,
                    bb == u128::MAX as nat + 1,
            ;
            r
        }
    }

    /// The difference, or zero where it would be negative.
    pub fn saturating_sub(&self, o: &U256) -> (r: U256)
        ensures
            r@ == if o@ <= self@ { self@ - o@ } else { 0 },
    {
        if o.le(self) {
            self.sub(o)
        } else {
            U256::zero()
        }
    }
}

/// The top bit of the high limb: set in the level key of every bid.
pub const SIDE_BIT: u128 = 0x8000_0000_0000_0000_0000_0000_0000_0000;

/// The key of a price level in the level table: the price itself for an ask,
/// the price with its top bit set for a bid.
pub open spec fn level_key(price: U256, is_ask: bool) -> (u128, u128) {
    if is_ask {
        (price.hi, price.lo)
    } else {
        (price.hi | SIDE_BIT, price.lo)
    }
}

pub proof fn lemma_price_bound(p: U256)
    ensures
        (p@ < price_bound()) == (p.hi < SIDE_BIT),
{
    let bb = limb_base();
    assert(u256_bound() == bb * bb);
    assert(price_bound() == (SIDE_BIT as nat) * bb) by (nonlinear_arith)
        requires
            bb == u128::MAX as nat + 1,
            SIDE_BIT as nat * 2 == bb,
            price_bound() == (bb * bb) / 2,
    ;
    if p.hi < SIDE_BIT {
        assert(p.hi as nat * bb + bb <= SIDE_BIT as nat * bb) by (nonlinear_arith)
            requires
                p.hi < SIDE_BIT,
        ;
    } else {
        assert(p.hi as nat * bb >= SIDE_BIT as nat * bb) by (nonlinear_arith)
            requires
                p.hi >= SIDE_BIT,
        ;
    }
}

/// Below the price bound, distinct (price, side) pairs have distinct level keys.
pub proof fn lemma_level_key_injective(p: U256, q: U256, a: bool, b: bool)
    requires
        p@ < price_bound(),
        q@ < price_bound(),
    ensures
        (level_key(p, a) == level_key(q, b)) == (p == q && a == b),
{
    lemma_price_bound(p);
    lemma_price_bound(q);
    let (x, y) = (p.hi, q.hi);
    assert(x < SIDE_BIT && y < SIDE_BIT ==> ((x | SIDE_BIT) == (y | SIDE_BIT)) == (x == y)
        && (x | SIDE_BIT) != y && (y | SIDE_BIT) != x) by (bit_vector);
}

/// Computes `level_key`.
pub fn price_level_key(price: U256, is_ask: bool) -> (r: (u128, u128))
    ensures
        r == level_key(price, is_ask),
{
    if is_ask {
        (price.hi, price.lo)
    } else {
        (price.hi | SIDE_BIT, price.lo)
    }
}

impl From<u64> for U256 {
    fn from(x: u64) -> (r: U256) {
        U256 { hi: 0, lo: x as u128 }
    }
}

impl vstd::std_specs::convert::FromSpecImpl<u64> for U256 {
    open spec fn obeys_from_spec() -> bool {
        true
    }

    open spec fn from_spec(x: u64) -> U256 {
        U256 { hi: 0, lo: x as u128 }
    }
}

} // verus!
