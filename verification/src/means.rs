//! Asset-price protocol: fixed nine-byte frames carrying a type tag and two
//! big-endian 32-bit integers, and the windowed mean over recorded prices.

use vstd::prelude::*;

verus! {

/// One decoded frame: a type tag and two signed 32-bit numbers.
#[derive(Clone, Copy, PartialEq, Debug)]
pub struct Message {
    pub message_type: char,
    pub a: i32,
    pub b: i32,
}

/// Cursor over a byte buffer from which frames are decoded one at a time.
pub struct MessageIterator {
    pub input: Vec<u8>,
    pub pos: usize,
}

/// Value of four bytes read as an unsigned big-endian number.
pub open spec fn be_u32(b0: u8, b1: u8, b2: u8, b3: u8) -> int {
    b0 * 0x100_0000 + b1 * 0x1_0000 + b2 * 0x100 + b3
}

/// Value of four bytes read as a signed big-endian number, two's
/// complement.
pub open spec fn be_i32(b0: u8, b1: u8, b2: u8, b3: u8) -> int {
    if be_u32(b0, b1, b2, b3) < 0x8000_0000 {
        be_u32(b0, b1, b2, b3)
    } else {
        be_u32(b0, b1, b2, b3) - 0x1_0000_0000
    }
}

/// Begin decoding frames from a buffer.
pub fn consume_messages(input: Vec<u8>) -> (r: MessageIterator)
    ensures
        r.input == input,
        r.pos == 0,
{
    MessageIterator { input, pos: 0 }
}

/// Read four big-endian bytes as a signed number.
fn read_be_i32(b0: u8, b1: u8, b2: u8, b3: u8) -> (r: i32)
    ensures
        r as int == be_i32(b0, b1, b2, b3),
{
    let v: u32 = (b0 as u32) * 0x100_0000 + (b1 as u32) * 0x1_0000 + (b2 as u32) * 0x100
        + (b3 as u32);
    if v >= 0x8000_0000 {
        -((0xFFFF_FFFFu32 - v) as i32) - 1
    } else {
        v as i32
    }
}

impl MessageIterator {
    /// Decode the next frame; nothing comes back once fewer than nine bytes
    /// remain.
    pub fn next(&mut self) -> (r: Option<Message>)
        ensures
            final(self).input == old(self).input,
            r is Some <==> old(self).pos + 9 <= old(self).input@.len(),
            r matches Some(m) ==> {
                let s = old(self).input@;
                let p = old(self).pos as int;
                &&& final(self).pos == old(self).pos + 9
                &&& m.message_type == s[p] as char
                &&& m.a as int == be_i32(s[p + 1], s[p + 2], s[p + 3], s[p + 4])
                &&& m.b as int == be_i32(s[p + 5], s[p + 6], s[p + 7], s[p + 8])
            },
            r is None ==> final(self).pos == old(self).pos,
    {
        if self.pos > self.input.len() || self.input.len() - self.pos < 9 {
            return None;
        }
        let p = self.pos;
        let tag = self.input[p] as char;
        let a = read_be_i32(self.input[p + 1], self.input[p + 2], self.input[p + 3],
            self.input[p + 4]);
        let b = read_be_i32(self.input[p + 5], self.input[p + 6], self.input[p + 7],
            self.input[p + 8]);
        self.pos = p + 9;
        Some(Message { message_type: tag, a, b })
    }
}

/// Sum of the prices whose timestamps fall in the window.
pub open spec fn sum_in(min: int, max: int, ps: Seq<(i32, i32)>) -> int
    decreases ps.len(),
{
    if ps.len() == 0 {
        0
    } else {
        sum_in(min, max, ps.drop_last()) + if min <= ps.last().0 <= max {
            ps.last().1 as int
        } else {
            0
        }
    }
}

/// How many timestamps fall in the window.
pub open spec fn count_in(min: int, max: int, ps: Seq<(i32, i32)>) -> int
    decreases ps.len(),
{
    if ps.len() == 0 {
        0
    } else {
        count_in(min, max, ps.drop_last()) + if min <= ps.last().0 <= max {
            1int
        } else {
            0
        }
    }
}

/// Signed division truncating toward zero, as the machine divides.
pub open spec fn div_trunc(a: int, b: int) -> int
    recommends
        b > 0,
{
    if a >= 0 {
        a / b
    } else {
        -((-a) / b)
    }
}

/// The sum stays within price bounds times the count.
proof fn lemma_sum_bounds(min: int, max: int, ps: Seq<(i32, i32)>)
    ensures
        count_in(min, max, ps) >= 0,
        count_in(min, max, ps) <= ps.len(),
        sum_in(min, max, ps) >= count_in(min, max, ps) * (-0x8000_0000),
        sum_in(min, max, ps) <= count_in(min, max, ps) * 0x7FFF_FFFF,
    decreases ps.len(),
{
    if ps.len() > 0 {
        lemma_sum_bounds(min, max, ps.drop_last());
        let c = count_in(min, max, ps.drop_last());
        assert((c + 1) * (-0x8000_0000) == c * (-0x8000_0000) + (-0x8000_0000))
            by (nonlinear_arith);
        assert((c + 1) * 0x7FFF_FFFF == c * 0x7FFF_FFFF + 0x7FFF_FFFF) by (nonlinear_arith);
    }
}

/// Mean price over the window, zero when no timestamp falls in it, rounded
/// toward zero as the original integer division does.
pub fn find_mean_price(min: i32, max: i32, prices: &Vec<(i32, i32)>) -> (r: i32)
    requires
        prices@.len() < 0x1_0000_0000,
    ensures
        count_in(min as int, max as int, prices@) == 0 ==> r == 0,
        count_in(min as int, max as int, prices@) > 0 ==> r as int == div_trunc(
            sum_in(min as int, max as int, prices@),
            count_in(min as int, max as int, prices@),
        ),
{
    let n = prices.len();
    let mut sum: i64 = 0;
    let mut cnt: u64 = 0;
    let mut i: usize = 0;
    while i < n
        invariant
            i <= n,
            n == prices@.len(),
            n < 0x1_0000_0000,
            sum as int == sum_in(min as int, max as int, prices@.subrange(0, i as int)),
            cnt as int == count_in(min as int, max as int, prices@.subrange(0, i as int)),
            cnt <= i,
            cnt as int * (-0x8000_0000) <= sum as int <= cnt as int * 0x7FFF_FFFF,
        decreases n - i,
    {
        proof {
            let cur = prices@.subrange(0, (i + 1) as int);
            assert(cur.drop_last() =~= prices@.subrange(0, i as int));
            assert(cur.last() == prices@[i as int]);
            let c = cnt as int;
            assert((c + 1) * (-0x8000_0000) == c * (-0x8000_0000) + (-0x8000_0000))
                by (nonlinear_arith);
            assert((c + 1) * 0x7FFF_FFFF == c * 0x7FFF_FFFF + 0x7FFF_FFFF) by (nonlinear_arith);
        }
        let (t, p) = (prices[i].0, prices[i].1);
        if t >= min && t <= max {
            sum = sum + p as i64;
            cnt = cnt + 1;
        }
        i = i + 1;
    }
    proof {
        assert(prices@.subrange(0, n as int) =~= prices@);
    }
    if cnt == 0 {
        return 0;
    }
    let q: u64 = if sum >= 0 {
        (sum as u64) / cnt
    } else {
        ((-sum) as u64) / cnt
    };
    proof {
        let s = sum as int;
        let c = cnt as int;
        if s >= 0 {
            assert(s / c <= 0x7FFF_FFFF) by (nonlinear_arith)
                requires
                    c > 0,
                    s <= c * 0x7FFF_FFFF,
            ;
            assert(s / c >= 0) by (nonlinear_arith)
                requires
                    c > 0,
                    s >= 0,
            ;
        } else {
            assert((-s) / c <= 0x8000_0000) by (nonlinear_arith)
                requires
                    c > 0,
                    -s <= c * 0x8000_0000,
            ;
            assert((-s) / c >= 0) by (nonlinear_arith)
                requires
                    c > 0,
                    s < 0,
            ;
        }
    }
    if sum >= 0 {
        q as i32
    } else {
        if q == 0x8000_0000 {
            return -0x7FFF_FFFF - 1;
        }
        -(q as i32)
    }
}

} // verus!
