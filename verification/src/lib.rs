//! A fixed-arena bitmap allocator and a bounds-checked pixel surface for a
//! bare-metal graphical application: the memory and drawing core that the
//! firmware glue drives.
//!
//! The crate root holds the decimal formatting that turns counters into
//! digit strings in the arena, and the display-mode selection rule.

use vstd::arithmetic::div_mod::{lemma_div_denominator, lemma_fundamental_div_mod};
use vstd::prelude::*;

pub mod memalloc;
pub mod screen;
pub mod strutils;

pub use memalloc::AllocError;
pub use memalloc::MemAllocator;

use memalloc::{find_free, mark, store};

verus! {

/// `10^e`.
pub open spec fn pow10(e: nat) -> nat
    decreases e,
{
    if e == 0 {
        1
    } else {
        10 * pow10((e - 1) as nat)
    }
}

/// The decimal digits of `n` as ASCII bytes, most significant first.
pub open spec fn decimal_digits(n: nat) -> Seq<u8>
    decreases n,
{
    if n < 10 {
        seq![(48 + n) as u8]
    } else {
        decimal_digits((n / 10) as nat).push((48 + n % 10) as u8)
    }
}

/// How many decimal digits `n` has (1 for 0).
pub open spec fn digit_count(n: nat) -> nat {
    decimal_digits(n).len()
}

proof fn lemma_pow10_pos(e: nat)
    ensures
        pow10(e) >= 1,
    decreases e,
{
    if e > 0 {
        lemma_pow10_pos((e - 1) as nat);
    }
}

proof fn lemma_pow10_monotone(i: nat, j: nat)
    requires
        i <= j,
    ensures
        1 <= pow10(i) <= pow10(j),
    decreases j,
{
    lemma_pow10_pos(i);
    if i < j {
        lemma_pow10_monotone(i, (j - 1) as nat);
    }
}

proof fn lemma_pow10_values()
    ensures
        pow10(19) == 10_000_000_000_000_000_000,
        pow10(20) == 100_000_000_000_000_000_000,
{
    reveal_with_fuel(pow10, 21);
}

/// Every `n` lies between the powers of ten that its digit count names.
proof fn lemma_digit_count_bounds(n: nat)
    ensures
        1 <= digit_count(n),
        n < pow10(digit_count(n)),
        n >= 1 ==> pow10((digit_count(n) - 1) as nat) <= n,
    decreases n,
{
    if n < 10 {
        assert(digit_count(n) == 1);
        assert(pow10(0) == 1);
        assert(pow10(1) == 10);
    } else {
        let m = (n / 10) as nat;
        lemma_digit_count_bounds(m);
        lemma_fundamental_div_mod(n as int, 10);
        vstd::arithmetic::div_mod::lemma_mod_bound(n as int, 10);
        assert(digit_count(n) == digit_count(m) + 1);
        assert(pow10(digit_count(n)) == 10 * pow10(digit_count(m)));
        assert(n < 10 * pow10(digit_count(m)));
        assert(pow10((digit_count(n) - 1) as nat) == pow10(digit_count(m)));
        assert(m >= 1);
        assert(pow10(digit_count(m)) == 10 * pow10((digit_count(m) - 1) as nat));
        assert(pow10((digit_count(m) - 1) as nat) <= m);
        assert(pow10(digit_count(m)) <= 10 * m);
    }
}

/// The digit count is the only `t` with `pow10(t - 1) <= n < pow10(t)`.
proof fn lemma_digit_count_unique(n: nat, t: nat)
    requires
        1 <= t,
        pow10((t - 1) as nat) <= n,
        n < pow10(t),
    ensures
        digit_count(n) == t,
{
    lemma_digit_count_bounds(n);
    let d = digit_count(n);
    if t < d {
        lemma_pow10_monotone(t, (d - 1) as nat);
        assert(pow10(t) <= pow10((d - 1) as nat));
    } else if d < t {
        lemma_pow10_monotone(d, (t - 1) as nat);
        assert(pow10(d) <= pow10((t - 1) as nat));
    }
}

/// Digit `j` of `n` (most significant first) is the remainder mod 10 of `n`
/// shifted right by `digit_count(n) - 1 - j` decimal places.
proof fn lemma_decimal_digit_at(n: nat, j: int)
    requires
        0 <= j < digit_count(n),
    ensures
        decimal_digits(n)[j] == (48 + (n / pow10((digit_count(n) - 1 - j) as nat)) % 10) as u8,
    decreases n,
{
    if n < 10 {
        assert(n / pow10(0) == n) by {
            assert(pow10(0) == 1);
            vstd::arithmetic::div_mod::lemma_div_basics(n as int);
        }
        assert(n % 10 == n) by {
            vstd::arithmetic::div_mod::lemma_small_mod(n, 10);
        }
    } else {
        let m = (n / 10) as nat;
        lemma_digit_count_bounds(m);
        assert(digit_count(n) == digit_count(m) + 1);
        if j == digit_count(n) - 1 {
            assert(n / pow10(0) == n) by {
                assert(pow10(0) == 1);
                vstd::arithmetic::div_mod::lemma_div_basics(n as int);
            }
        } else {
            lemma_decimal_digit_at(m, j);
            let e = (digit_count(m) - 1 - j) as nat;
            lemma_pow10_monotone(0, e);
            lemma_div_denominator(n as int, 10, pow10(e) as int);
            assert((n / 10) as nat / pow10(e) == n / (10 * pow10(e)));
            assert(10 * pow10(e) == pow10((e + 1) as nat));
        }
    }
}

/// The number of decimal digits of `num`: the smallest exponent `t` with
/// `num < 10^t`, and 1 for 0.
pub fn max_ten_pow(num: u64) -> (r: u16)
    ensures
        r == digit_count(num as nat),
{
    if num == 0 {
        return 1;
    }
    let mut test: u16 = 0;
    loop
        invariant
            1 <= num,
            test <= 20,
            test >= 1 ==> pow10((test - 1) as nat) <= num as nat,
        decreases 20 - test,
    {
        if test == 20 {
            proof {
                lemma_pow10_values();
                lemma_digit_count_unique(num as nat, 20);
            }
            return 20;
        }
        let p = pow10_u64(test);
        if num < p {
            proof {
                if test == 0 {
                    assert(pow10(0) == 1);
                    assert(false);
                }
                lemma_digit_count_unique(num as nat, test as nat);
            }
            return test;
        }
        test = test + 1;
    }
}

/// `10^e` as a machine integer; `10^19` is the largest power of ten a `u64`
/// holds.
fn pow10_u64(e: u16) -> (r: u64)
    requires
        e <= 19,
    ensures
        r == pow10(e as nat),
{
    let mut r: u64 = 1;
    let mut i: u16 = 0;
    while i < e
        invariant
            i <= e <= 19,
            r == pow10(i as nat),
        decreases e - i,
    {
        proof {
            lemma_pow10_values();
            lemma_pow10_monotone((i + 1) as nat, 19);
        }
        r = r * 10;
        i = i + 1;
    }
    r
}

/// Format `num` in decimal into a fresh arena allocation of exactly
/// `digit_count(num)` bytes; the region then holds the ASCII digits, most
/// significant first.
pub fn get_num_string(a: &mut MemAllocator, num: u64) -> (r: Result<(usize, usize), AllocError>)
    requires
        old(a).wf(),
    ensures
        final(a).wf(),
        final(a).size_spec() == old(a).size_spec(),
        match r {
            Ok((addr, len)) => {
                &&& len == digit_count(num as nat)
                &&& find_free(old(a).occupied(), len as int) == Some(addr as int)
                &&& addr + len <= old(a).size_spec()
                &&& final(a).occupied() == mark(old(a).occupied(), addr as int, len as int, true)
                &&& final(a).bytes() == store(
                    old(a).bytes(),
                    addr as int,
                    decimal_digits(num as nat),
                )
            },
            Err(e) => {
                &&& e == AllocError::OutOfMemory
                &&& find_free(old(a).occupied(), digit_count(num as nat) as int) is None
                &&& final(a).occupied() == old(a).occupied()
                &&& final(a).bytes() == old(a).bytes()
            },
        },
{
    if num == 0 {
        let addr = match a.malloc(1) {
            Ok(addr) => addr,
            Err(e) => {
                return Err(e);
            },
        };
        a.set_byte(addr, 48);
        proof {
            assert(decimal_digits(0) =~= seq![48u8]);
            assert(a.bytes() =~= store(old(a).bytes(), addr as int, decimal_digits(0)));
        }
        return Ok((addr, 1));
    }
    let length_u16 = max_ten_pow(num);
    proof {
        lemma_digit_count_bounds(num as nat);
    }
    let length = length_u16 as usize;
    let addr = match a.malloc(length) {
        Ok(addr) => addr,
        Err(e) => {
            return Err(e);
        },
    };
    let total = a.size();
    let mut running = num;
    let mut ind: usize = length - 1;
    proof {
        assert(pow10(0) == 1);
        vstd::arithmetic::div_mod::lemma_div_basics(num as int);
    }
    loop
        invariant_except_break
            ind < length,
            running == (num as nat) / pow10((length - 1 - ind) as nat),
            forall|k: int|
                0 <= k < total ==> a.bytes()[k] == (if addr + ind < k < addr + length {
                    decimal_digits(num as nat)[k - addr]
                } else {
                    old(a).bytes()[k]
                }),
        invariant
            a.wf(),
            a.size_spec() == total,
            a.size_spec() == old(a).size_spec(),
            a.occupied() == mark(old(a).occupied(), addr as int, length as int, true),
            addr + length <= total,
            length == digit_count(num as nat),
        ensures
            forall|k: int|
                0 <= k < total ==> a.bytes()[k] == (if addr <= k < addr + length {
                    decimal_digits(num as nat)[k - addr]
                } else {
                    old(a).bytes()[k]
                }),
        decreases ind,
    {
        let digit = (running % 10) as u8 + 48;
        proof {
            lemma_decimal_digit_at(num as nat, ind as int);
        }
        a.set_byte(addr + ind, digit);
        proof {
            let e = (length - 1 - ind) as nat;
            lemma_pow10_monotone(0, e);
            lemma_div_denominator(num as int, pow10(e) as int, 10);
            assert(pow10(e) * 10 == 10 * pow10(e));
            assert(10 * pow10(e) == pow10((e + 1) as nat));
        }
        running = running / 10;
        if ind == 0 {
            break;
        }
        ind = ind - 1;
    }
    proof {
        assert(a.bytes() =~= store(old(a).bytes(), addr as int, decimal_digits(num as nat)));
    }
    Ok((addr, length))
}

/// The widest resolution the application accepts from the display-mode
/// collaborator.
pub const WIDTH: usize = 1920;

/// The tallest resolution the application accepts.
pub const HEIGHT: usize = 1080;

/// What the display-mode collaborator reports of one mode: its resolution
/// and whether its pixel layout is the 3-byte blue-green-red order the
/// surface expects.
#[derive(Clone, Copy, Debug, PartialEq, Eq, Structural)]
pub struct ModeInfo {
    pub width: usize,
    pub height: usize,
    pub bgr: bool,
}

/// A mode the application can use: the expected pixel order, a resolution
/// within the accepted bounds, and a nonzero width (the selection starts
/// from a zero-width best, so a zero-width mode can never win).
pub open spec fn mode_qualifies(m: ModeInfo) -> bool {
    m.bgr && m.width <= WIDTH && m.height <= HEIGHT && m.width >= 1
}

/// Pick the display mode to run in: the first qualifying mode of maximal
/// width, or nothing when no mode qualifies.
pub fn get_best_mode(modes: &Vec<ModeInfo>) -> (r: Option<usize>)
    ensures
        match r {
            Some(i) => {
                &&& i < modes@.len()
                &&& mode_qualifies(modes@[i as int])
                &&& forall|j: int|
                    0 <= j < modes@.len() && mode_qualifies(#[trigger] modes@[j]) ==> modes@[j].width
                        <= modes@[i as int].width
                &&& forall|j: int|
                    0 <= j < i && mode_qualifies(#[trigger] modes@[j]) ==> modes@[j].width
                        < modes@[i as int].width
            },
            None => forall|j: int| 0 <= j < modes@.len() ==> !mode_qualifies(#[trigger] modes@[j]),
        },
{
    let n = modes.len();
    let mut best_w: usize = 0;
    let mut best: Option<usize> = None;
    let mut k: usize = 0;
    while k < n
        invariant
            n == modes@.len(),
            k <= n,
            match best {
                Some(i) => {
                    &&& i < k
                    &&& mode_qualifies(modes@[i as int])
                    &&& best_w == modes@[i as int].width
                    &&& forall|j: int|
                        0 <= j < k && mode_qualifies(#[trigger] modes@[j]) ==> modes@[j].width
                            <= best_w
                    &&& forall|j: int|
                        0 <= j < i && mode_qualifies(#[trigger] modes@[j]) ==> modes@[j].width
                            < best_w
                },
                None => best_w == 0 && forall|j: int|
                    0 <= j < k ==> !mode_qualifies(#[trigger] modes@[j]),
            },
        decreases n - k,
    {
        let m = modes[k];
        if m.bgr && m.width <= WIDTH && m.height <= HEIGHT && m.width > best_w {
            best_w = m.width;
            best = Some(k);
        }
        k = k + 1;
    }
    best
}

} // verus!
