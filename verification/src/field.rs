//! Arithmetic in the prime field of the BabyBear prime `2^31 - 2^27 + 1`.

use vstd::arithmetic::div_mod::*;
use vstd::arithmetic::mul::*;
use vstd::arithmetic::power::*;
use vstd::arithmetic::power2::*;
use vstd::prelude::*;
use vstd::std_specs::convert::FromSpecImpl;
use crate::number_theory::{is_prime, lemma_fermat, lemma_prime_from_root_of_unity};
use vstd::std_specs::ops::{AddSpecImpl, MulSpecImpl, NegSpecImpl, SubSpecImpl};

verus! {

/// The BabyBear prime, `2^31 - 2^27 + 1`.
pub const MODULUS: u64 = 2_013_265_921;

/// The field's modulus as a mathematical integer.
pub open spec fn modulus() -> int {
    MODULUS as int
}

/// `x` reduced into `[0, MODULUS)`.
pub open spec fn reduce(x: int) -> nat {
    (x % modulus()) as nat
}

/// The representatives of a sequence of field elements.
pub open spec fn values(s: Seq<Fp>) -> Seq<int> {
    s.map_values(|x: Fp| x@ as int)
}

/// An element of the prime field of order `MODULUS`, stored as its
/// canonical representative in `[0, MODULUS)`.
#[derive(Debug, Clone, Copy, PartialEq, Eq, Structural)]
pub struct Fp(u64);

impl View for Fp {
    type V = nat;

    /// The canonical representative of the element.
    closed spec fn view(&self) -> nat {
        self.0 as nat
    }
}

/// Reducing twice is reducing once.
pub proof fn lemma_mod_twice_int(x: int)
    ensures
        reduce(x) as int % modulus() == x % modulus(),
{
    lemma_mod_twice(x, modulus());
}

/// Congruence is preserved by multiplication.
pub proof fn lemma_mul_congruent(x: int, y: int, x2: int, y2: int)
    requires
        x % modulus() == x2 % modulus(),
        y % modulus() == y2 % modulus(),
    ensures
        (x * y) % modulus() == (x2 * y2) % modulus(),
{
    lemma_mul_mod_noop(x, y, modulus());
    lemma_mul_mod_noop(x2, y2, modulus());
}

/// Congruence is preserved by addition.
pub proof fn lemma_add_congruent(x: int, y: int, x2: int, y2: int)
    requires
        x % modulus() == x2 % modulus(),
        y % modulus() == y2 % modulus(),
    ensures
        (x + y) % modulus() == (x2 + y2) % modulus(),
{
    lemma_add_mod_noop(x, y, modulus());
    lemma_add_mod_noop(x2, y2, modulus());
}

/// One step of square-and-multiply keeps `r * b^e` unchanged modulo the prime.
proof fn lemma_square_and_multiply(r: int, b: int, e: nat)
    requires
        e > 0,
    ensures
        ({
            let r2 = if e % 2 == 1 { (r * b) % modulus() } else { r };
            (r2 * pow((b * b) % modulus(), e / 2)) % modulus() == (r * pow(b, e)) % modulus()
        }),
{
    let m = modulus();
    let k = e / 2;
    let q = pow(b * b, k);
    lemma_pow_adds(b, e % 2, 2 * k);
    assert(e % 2 + 2 * k == e);
    lemma_square_is_pow2(b);
    lemma_pow_multiplies(b, 2, k);
    lemma_pow_mod_noop(b * b, k, m);
    lemma_mod_twice(r * b, m);
    assert(pow(b, e) == pow(b, e % 2) * q);
    if e % 2 == 1 {
        lemma_pow1(b);
        lemma_mul_congruent((r * b) % m, pow((b * b) % m, k), r * b, q);
        lemma_mul_is_associative(r, b, q);
    } else {
        lemma_pow0(b);
        lemma_mul_congruent(r, pow((b * b) % m, k), r, q);
    }
}

/// Squaring `c^e` gives `c^(2e)`, also modulo the prime.
proof fn lemma_square_step(c: int, e: nat, v: int)
    requires
        pow(c, e) % modulus() == v,
    ensures
        pow(c, 2 * e) % modulus() == (v * v) % modulus(),
{
    lemma_pow_multiplies(c, e, 2);
    lemma_square_is_pow2(pow(c, e));
    lemma_mul_mod_noop(pow(c, e), pow(c, e), modulus());
    assert(e * 2 == 2 * e);
}

/// `MODULUS` is prime: `1227303670` has multiplicative order exactly `2^27` modulo
/// it, and `(2^27 + 1)^2 > MODULUS`.
pub proof fn lemma_modulus_is_prime()
    ensures
        is_prime(MODULUS as nat),
{
    let c: int = 1227303670;
    lemma_pow1(c);
    lemma_small_mod(1227303670, MODULUS as nat);
    lemma_square_step(c, 1, 1227303670);
    assert((1227303670int * 1227303670int) % modulus() == 93415323);
    lemma_square_step(c, 2, 93415323);
    assert((93415323int * 93415323int) % modulus() == 1967256669);
    lemma_square_step(c, 4, 1967256669);
    assert((1967256669int * 1967256669int) % modulus() == 803698133);
    lemma_square_step(c, 8, 803698133);
    assert((803698133int * 803698133int) % modulus() == 1468189886);
    lemma_square_step(c, 16, 1468189886);
    assert((1468189886int * 1468189886int) % modulus() == 551940703);
    lemma_square_step(c, 32, 551940703);
    assert((551940703int * 551940703int) % modulus() == 845732530);
    lemma_square_step(c, 64, 845732530);
    assert((845732530int * 845732530int) % modulus() == 1179029991);
    lemma_square_step(c, 128, 1179029991);
    assert((1179029991int * 1179029991int) % modulus() == 139700921);
    lemma_square_step(c, 256, 139700921);
    assert((139700921int * 139700921int) % modulus() == 1161580287);
    lemma_square_step(c, 512, 1161580287);
    assert((1161580287int * 1161580287int) % modulus() == 234232845);
    lemma_square_step(c, 1024, 234232845);
    assert((234232845int * 234232845int) % modulus() == 74384512);
    lemma_square_step(c, 2048, 74384512);
    assert((74384512int * 74384512int) % modulus() == 921325686);
    lemma_square_step(c, 4096, 921325686);
    assert((921325686int * 921325686int) % modulus() == 400588301);
    lemma_square_step(c, 8192, 400588301);
    assert((400588301int * 400588301int) % modulus() == 772837880);
    lemma_square_step(c, 16384, 772837880);
    assert((772837880int * 772837880int) % modulus() == 1619789736);
    lemma_square_step(c, 32768, 1619789736);
    assert((1619789736int * 1619789736int) % modulus() == 709697997);
    lemma_square_step(c, 65536, 709697997);
    assert((709697997int * 709697997int) % modulus() == 1054808915);
    lemma_square_step(c, 131072, 1054808915);
    assert((1054808915int * 1054808915int) % modulus() == 949217896);
    lemma_square_step(c, 262144, 949217896);
    assert((949217896int * 949217896int) % modulus() == 1734697937);
    lemma_square_step(c, 524288, 1734697937);
    assert((1734697937int * 1734697937int) % modulus() == 784229619);
    lemma_square_step(c, 1048576, 784229619);
    assert((784229619int * 784229619int) % modulus() == 1917679203);
    lemma_square_step(c, 2097152, 1917679203);
    assert((1917679203int * 1917679203int) % modulus() == 1835875777);
    lemma_square_step(c, 4194304, 1835875777);
    assert((1835875777int * 1835875777int) % modulus() == 1400279418);
    lemma_square_step(c, 8388608, 1400279418);
    assert((1400279418int * 1400279418int) % modulus() == 420899707);
    lemma_square_step(c, 16777216, 420899707);
    assert((420899707int * 420899707int) % modulus() == 1728404513);
    lemma_square_step(c, 33554432, 1728404513);
    assert((1728404513int * 1728404513int) % modulus() == 2013265920);
    lemma_square_step(c, 67108864, 2013265920);
    assert((2013265920int * 2013265920int) % modulus() == 1);
    lemma2_to64();
    assert(pow2(27) == 134217728);
    assert(pow2(26) == 67108864);
    assert((134217729nat * 134217729nat) > MODULUS);
    assert((pow2(27) + 1) * (pow2(27) + 1) == 134217729nat * 134217729nat);
    lemma_prime_from_root_of_unity(MODULUS as nat, 1227303670, 27);
}

/// By Fermat's little theorem, `a^(MODULUS - 2)` is the inverse of a nonzero `a`.
proof fn lemma_inverse_by_fermat(a: nat)
    requires
        0 < a < modulus(),
    ensures
        reduce(a * reduce(pow(a as int, (MODULUS - 2) as nat)) as int) == 1,
{
    let m = modulus();
    let e = pow(a as int, (MODULUS - 2) as nat);
    lemma_modulus_is_prime();
    lemma_small_mod(a, MODULUS as nat);
    lemma_fermat(a, MODULUS as nat);
    lemma_pow_adds(a as int, 1, (MODULUS - 2) as nat);
    lemma_pow1(a as int);
    assert(pow(a as int, (MODULUS - 1) as nat) == a * e);
    lemma_mul_congruent(a as int, e % m, a as int, e);
}

impl Fp {
    /// The representative is reduced; every `Fp` value in executable code has it.
    #[verifier::type_invariant]
    pub closed spec fn canonical(self) -> bool {
        self.0 < MODULUS
    }

    /// What `canonical` says of the representative.
    pub proof fn lemma_canonical(x: Fp)
        requires
            x.canonical(),
        ensures
            x@ < modulus(),
    {
    }

    /// Two field elements are equal exactly when their representatives are.
    pub proof fn lemma_view_injective(a: Fp, b: Fp)
        ensures
            a@ == b@ <==> a == b,
    {
    }

    /// Reduces `value` modulo `MODULUS`.
    pub fn new(value: u64) -> (r: Fp)
        ensures
            r@ == reduce(value as int),
    {
        Fp(value % MODULUS)
    }

    pub fn zero() -> (r: Fp)
        ensures
            r@ == 0,
    {
        Fp(0)
    }

    pub fn one() -> (r: Fp)
        ensures
            r@ == 1,
    {
        Fp(1)
    }

    pub fn is_zero(&self) -> (r: bool)
        ensures
            r == (self@ == 0),
    {
        self.0 == 0
    }

    /// Raises `self` to the power `exp` by square-and-multiply.
    pub fn pow(&self, exp: u64) -> (r: Fp)
        ensures
            r@ == reduce(pow(self@ as int, exp as nat)),
    {
        let mut base = *self;
        let mut result = Fp::one();
        let mut e = exp;
        proof {
            lemma_mul_basics(pow(self@ as int, exp as nat));
        }
        while e > 0
            invariant
                (result@ * pow(base@ as int, e as nat)) % modulus() == pow(self@ as int, exp as nat)
                    % modulus(),
            decreases e,
        {
            proof {
                lemma_square_and_multiply(result@ as int, base@ as int, e as nat);
            }
            if e % 2 == 1 {
                result = result * base;
            }
            base = base * base;
            e = e / 2;
        }
        proof {
            lemma_pow0(base@ as int);
            use_type_invariant(result);
            lemma_small_mod(result@, MODULUS as nat);
        }
        result
    }

    /// The multiplicative inverse `self^(MODULUS - 2)`, or `None` for zero.
    pub fn inverse(&self) -> (r: Option<Fp>)
        ensures
            r is None <==> self@ == 0,
            r matches Some(x) ==> x@ == reduce(pow(self@ as int, (MODULUS - 2) as nat)),
            r matches Some(x) ==> reduce(self@ * x@ as int) == 1,
    {
        if self.is_zero() {
            None
        } else {
            let x = self.pow(MODULUS - 2);
            proof {
                use_type_invariant(*self);
                lemma_inverse_by_fermat(self@);
            }
            Some(x)
        }
    }

    /// The little-endian bytes of the canonical representative.
    pub fn to_bytes(&self) -> (r: Vec<u8>)
        ensures
            r@ == crate::encoding::le_bytes(self@, 8),
    {
        crate::encoding::u64_to_le_bytes(self.0)
    }

    /// Reads `bytes` as a little-endian integer and reduces it modulo the prime.
    pub fn from_bytes_reduce(bytes: &[u8]) -> (r: Fp)
        ensures
            r@ == reduce(crate::encoding::le_value(bytes@) as int),
    {
        let n = bytes.len();
        let mut acc: u64 = 0;
        let mut i = n;
        proof {
            assert(bytes@.subrange(n as int, n as int) =~= Seq::<u8>::empty());
            assert(crate::encoding::le_value(Seq::<u8>::empty()) == 0);
        }
        while i > 0
            invariant
                i <= n,
                n == bytes@.len(),
                acc < MODULUS,
                acc as int == reduce(crate::encoding::le_value(bytes@.subrange(i as int, n as int)) as int),
            decreases i,
        {
            let ghost tail = bytes@.subrange(i as int, n as int);
            i = i - 1;
            let b = bytes[i];
            proof {
                let s = bytes@.subrange(i as int, n as int);
                assert(s.drop_first() =~= tail);
                assert(s[0] == b);
                lemma_mod_twice(crate::encoding::le_value(tail) as int, modulus());
                lemma_mul_congruent(256, acc as int, 256, crate::encoding::le_value(tail) as int);
                lemma_add_congruent(
                    b as int,
                    256 * acc as int,
                    b as int,
                    256 * crate::encoding::le_value(tail) as int,
                );
            }
            acc = (acc * 256 + b as u64) % MODULUS;
        }
        proof {
            assert(bytes@.subrange(0, n as int) =~= bytes@);
        }
        Fp(acc)
    }
}

impl core::ops::Add for Fp {
    type Output = Fp;

    fn add(self, rhs: Fp) -> (r: Fp)
        ensures
            r@ == reduce(self@ + rhs@ as int),
    {
        proof {
            use_type_invariant(self);
            use_type_invariant(rhs);
        }
        Fp::new(self.0 + rhs.0)
    }
}

impl AddSpecImpl for Fp {
    open spec fn obeys_add_spec() -> bool {
        true
    }

    open spec fn add_req(self, rhs: Fp) -> bool {
        true
    }

    open spec fn add_spec(self, rhs: Fp) -> Fp {
        self.spec_sum(rhs)
    }
}

impl core::ops::Sub for Fp {
    type Output = Fp;

    fn sub(self, rhs: Fp) -> (r: Fp)
        ensures
            r@ == reduce(self@ - rhs@),
    {
        proof {
            use_type_invariant(self);
            use_type_invariant(rhs);
            lemma_mod_add_multiples_vanish(self@ - rhs@, modulus());
        }
        Fp::new(self.0 + MODULUS - rhs.0)
    }
}

impl SubSpecImpl for Fp {
    open spec fn obeys_sub_spec() -> bool {
        true
    }

    open spec fn sub_req(self, rhs: Fp) -> bool {
        true
    }

    open spec fn sub_spec(self, rhs: Fp) -> Fp {
        self.spec_difference(rhs)
    }
}

impl core::ops::Mul for Fp {
    type Output = Fp;

    fn mul(self, rhs: Fp) -> (r: Fp)
        ensures
            r@ == reduce(self@ * rhs@ as int),
    {
        proof {
            use_type_invariant(self);
            use_type_invariant(rhs);
            lemma_mul_upper_bound(self@ as int, MODULUS as int, rhs@ as int, MODULUS as int);
        }
        Fp::new(self.0 * rhs.0)
    }
}

impl MulSpecImpl for Fp {
    open spec fn obeys_mul_spec() -> bool {
        true
    }

    open spec fn mul_req(self, rhs: Fp) -> bool {
        true
    }

    open spec fn mul_spec(self, rhs: Fp) -> Fp {
        self.spec_product(rhs)
    }
}

impl core::ops::Neg for Fp {
    type Output = Fp;

    fn neg(self) -> (r: Fp)
        ensures
            r@ == reduce(-(self@ as int)),
    {
        proof {
            use_type_invariant(self);
            lemma_mod_add_multiples_vanish(-(self@ as int), modulus());
        }
        if self.is_zero() {
            self
        } else {
            Fp::new(MODULUS - self.0)
        }
    }
}

impl NegSpecImpl for Fp {
    open spec fn obeys_neg_spec() -> bool {
        true
    }

    open spec fn neg_req(self) -> bool {
        true
    }

    open spec fn neg_spec(self) -> Fp {
        self.spec_negation()
    }
}

impl From<u64> for Fp {
    fn from(value: u64) -> (r: Fp)
        ensures
            r@ == reduce(value as int),
    {
        Fp::new(value)
    }
}

impl FromSpecImpl<u64> for Fp {
    open spec fn obeys_from_spec() -> bool {
        true
    }

    open spec fn from_spec(v: u64) -> Fp {
        Fp::spec_from_u64(v)
    }
}

impl Fp {
    /// The element that `+` returns.
    pub closed spec fn spec_sum(self, rhs: Fp) -> Fp {
        Fp(reduce(self@ + rhs@ as int) as u64)
    }

    /// The element that `-` returns.
    pub closed spec fn spec_difference(self, rhs: Fp) -> Fp {
        Fp(reduce(self@ - rhs@) as u64)
    }

    /// The element that `*` returns.
    pub closed spec fn spec_product(self, rhs: Fp) -> Fp {
        Fp(reduce(self@ * rhs@ as int) as u64)
    }

    /// The element that unary `-` returns.
    pub closed spec fn spec_negation(self) -> Fp {
        Fp(reduce(-(self@ as int)) as u64)
    }

    /// The element that `Fp::from` returns.
    pub closed spec fn spec_from_u64(v: u64) -> Fp {
        Fp(reduce(v as int) as u64)
    }
}

/// `-a` is the additive inverse of `a`: `a + (-a) == 0`.
pub proof fn lemma_negation_is_additive_inverse(a: Fp)
    ensures
        reduce(a@ + reduce(-(a@ as int)) as int) == 0,
{
    lemma_mod_twice_int(-(a@ as int));
    lemma_add_congruent(a@ as int, reduce(-(a@ as int)) as int, a@ as int, -(a@ as int));
    lemma_small_mod(0, MODULUS as nat);
}

/// One is the multiplicative identity and zero the additive identity.
pub proof fn lemma_identities(a: Fp)
    requires
        a.canonical(),
    ensures
        reduce(a@ * 1int) == a@,
        reduce(a@ + 0int) == a@,
{
    Fp::lemma_canonical(a);
    lemma_small_mod(a@, MODULUS as nat);
}

/// `a^(e + 1) == a^e * a` in the field: `pow` is repeated multiplication.
pub proof fn lemma_pow_step(a: Fp, e: nat)
    ensures
        reduce(pow(a@ as int, e + 1)) == reduce(reduce(pow(a@ as int, e)) * a@ as int),
{
    lemma_pow_adds(a@ as int, e, 1);
    lemma_pow1(a@ as int);
    lemma_mod_twice_int(pow(a@ as int, e));
    lemma_mul_congruent(reduce(pow(a@ as int, e)) as int, a@ as int, pow(a@ as int, e), a@ as int);
}

} // verus!
