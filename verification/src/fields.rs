use vstd::prelude::*;

use crate::cursor::WalkingVec;
use crate::error::TzError;

verus! {

/// 256 raised to the `n`-th power: how many values `n` bytes can hold.
pub open spec fn pow256(n: nat) -> nat
    decreases n,
{
    if n == 0 {
        1
    } else {
        256 * pow256((n - 1) as nat)
    }
}

/// The unsigned integer denoted by a byte sequence read little-endian:
/// the first byte is the least significant.
pub open spec fn le_uint(s: Seq<u8>) -> nat
    decreases s.len(),
{
    if s.len() == 0 {
        0
    } else {
        s[0] as nat + 256 * le_uint(s.subrange(1, s.len() as int))
    }
}

/// The two's-complement signed integer denoted by a byte sequence read
/// little-endian: values at or above half the range wrap to negatives.
pub open spec fn le_int(s: Seq<u8>) -> int {
    if 2 * le_uint(s) < pow256(s.len()) {
        le_uint(s) as int
    } else {
        le_uint(s) as int - pow256(s.len())
    }
}

pub proof fn lemma_pow256_vals()
    ensures
        pow256(0) == 1,
        pow256(1) == 0x100,
        pow256(2) == 0x1_0000,
        pow256(3) == 0x100_0000,
        pow256(4) == 0x1_0000_0000,
        pow256(5) == 0x100_0000_0000,
        pow256(6) == 0x1_0000_0000_0000,
        pow256(7) == 0x100_0000_0000_0000,
        pow256(8) == 0x1_0000_0000_0000_0000,
{
    reveal_with_fuel(pow256, 9);
}

pub proof fn lemma_pow256_mono(a: nat, b: nat)
    requires
        a <= b,
    ensures
        pow256(a) <= pow256(b),
    decreases b,
{
    if a < b {
        lemma_pow256_mono(a, (b - 1) as nat);
    }
}

pub proof fn lemma_le_uint_bound(s: Seq<u8>)
    ensures
        le_uint(s) < pow256(s.len()),
    decreases s.len(),
{
    if s.len() > 0 {
        lemma_le_uint_bound(s.subrange(1, s.len() as int));
    }
}

/// A run of one byte denotes that byte's value.
pub proof fn lemma_le_uint_singleton(s: Seq<u8>, i: int)
    requires
        0 <= i < s.len(),
    ensures
        le_uint(s.subrange(i, i + 1)) == s[i],
{
    let t = s.subrange(i, i + 1);
    assert(t.subrange(1, 1) =~= Seq::<u8>::empty());
    assert(le_uint(Seq::<u8>::empty()) == 0);
    assert(le_uint(t) == t[0] as nat + 256 * le_uint(t.subrange(1, 1)));
}

/// Signed values fit in half the unsigned range on either side of zero.
pub proof fn lemma_le_int_bound(s: Seq<u8>)
    ensures
        2 * le_int(s) >= -pow256(s.len()),
        2 * le_int(s) < pow256(s.len()),
{
    lemma_le_uint_bound(s);
}

/// Consume `width` bytes and reinterpret them as a little-endian unsigned
/// integer. Fails with `BufferUnderrun`, leaving the cursor in place, when
/// fewer than `width` bytes remain.
pub fn read_uint(buf: &mut WalkingVec, width: usize) -> (r: Result<u64, TzError>)
    requires
        old(buf).wf(),
        1 <= width <= 8,
    ensures
        final(buf).wf(),
        final(buf).bytes() == old(buf).bytes(),
        match r {
            Ok(v) => {
                &&& old(buf).pos() + width <= old(buf).bytes().len()
                &&& final(buf).pos() == old(buf).pos() + width
                &&& v as nat == le_uint(
                    old(buf).bytes().subrange(old(buf).pos(), old(buf).pos() + width),
                )
            },
            Err(e) => {
                &&& e == TzError::BufferUnderrun
                &&& old(buf).pos() + width > old(buf).bytes().len()
                &&& final(buf).pos() == old(buf).pos()
            },
        },
{
    let chunk = match buf.walk(width) {
        Ok(c) => c,
        Err(e) => {
            return Err(e);
        },
    };
    let ghost cs = chunk@;
    let mut v: u64 = 0;
    let mut i: usize = width;
    proof {
        assert(cs.subrange(width as int, width as int) =~= Seq::<u8>::empty());
    }
    while i > 0
        invariant
            i <= width <= 8,
            chunk@ == cs,
            cs.len() == width,
            v as nat == le_uint(cs.subrange(i as int, width as int)),
        decreases i,
    {
        proof {
            lemma_le_uint_bound(cs.subrange(i as int, width as int));
            lemma_pow256_mono((width - i) as nat, 7);
            lemma_pow256_vals();
        }
        i = i - 1;
        v = v * 256 + (chunk[i] as u64);
        proof {
            assert(cs.subrange(i as int, width as int).subrange(
                1,
                (width - i) as int,
            ) =~= cs.subrange(i as int + 1, width as int));
        }
    }
    proof {
        assert(cs.subrange(0, width as int) =~= cs);
    }
    Ok(v)
}

/// Powers of 256 as a machine integer; only exponents whose power fits
/// comfortably in a `u64` are accepted.
pub fn pow256_exec(n: usize) -> (r: u64)
    requires
        n <= 7,
    ensures
        r as nat == pow256(n as nat),
{
    let mut r: u64 = 1;
    let mut i: usize = 0;
    while i < n
        invariant
            i <= n <= 7,
            r as nat == pow256(i as nat),
        decreases n - i,
    {
        proof {
            lemma_pow256_mono(i as nat, 6);
            lemma_pow256_vals();
        }
        r = r * 256;
        i = i + 1;
    }
    r
}

/// Consume `width` bytes and reinterpret them as a little-endian
/// two's-complement signed integer. Fails with `BufferUnderrun`, leaving the
/// cursor in place, when fewer than `width` bytes remain.
pub fn read_int(buf: &mut WalkingVec, width: usize) -> (r: Result<i64, TzError>)
    requires
        old(buf).wf(),
        1 <= width <= 8,
    ensures
        final(buf).wf(),
        final(buf).bytes() == old(buf).bytes(),
        match r {
            Ok(v) => {
                &&& old(buf).pos() + width <= old(buf).bytes().len()
                &&& final(buf).pos() == old(buf).pos() + width
                &&& v as int == le_int(
                    old(buf).bytes().subrange(old(buf).pos(), old(buf).pos() + width),
                )
            },
            Err(e) => {
                &&& e == TzError::BufferUnderrun
                &&& old(buf).pos() + width > old(buf).bytes().len()
                &&& final(buf).pos() == old(buf).pos()
            },
        },
{
    let ghost s = old(buf).bytes().subrange(old(buf).pos(), old(buf).pos() + width as int);
    let u = match read_uint(buf, width) {
        Ok(u) => u,
        Err(e) => {
            return Err(e);
        },
    };
    proof {
        lemma_le_uint_bound(s);
        lemma_pow256_vals();
    }
    if width == 8 {
        if u >= 0x8000_0000_0000_0000u64 {
            Ok(-((u64::MAX - u) as i64) - 1)
        } else {
            Ok(u as i64)
        }
    } else {
        proof {
            lemma_pow256_mono(width as nat, 7);
        }
        let full = pow256_exec(width);
        if 2 * u >= full {
            Ok(-((full - u) as i64))
        } else {
            Ok(u as i64)
        }
    }
}

/// The `i`-th element of a run of `width`-byte little-endian unsigned values.
pub open spec fn run_elem(s: Seq<u8>, width: nat, i: nat) -> nat {
    le_uint(s.subrange(i as int * width as int, i as int * width as int + width as int))
}

/// The elements of a `count`-long run of `width`-byte values that pass the
/// predicate `p`, kept in the order they were read.
pub open spec fn filtered_run(s: Seq<u8>, width: nat, count: nat, p: spec_fn(nat) -> bool) -> Seq<
    nat,
>
    decreases count,
{
    if count == 0 {
        Seq::empty()
    } else {
        let prev = filtered_run(s, width, (count - 1) as nat, p);
        let e = run_elem(s, width, (count - 1) as nat);
        if p(e) {
            prev.push(e)
        } else {
            prev
        }
    }
}

/// Filtering never lengthens a run: at most `count` elements are kept.
pub proof fn lemma_filtered_run_len(s: Seq<u8>, width: nat, count: nat, p: spec_fn(nat) -> bool)
    ensures
        filtered_run(s, width, count, p).len() <= count,
    decreases count,
{
    if count > 0 {
        lemma_filtered_run_len(s, width, (count - 1) as nat, p);
    }
}

/// Decode `count` little-endian unsigned values of `width` bytes each,
/// keeping only those that satisfy the predicate `f`. The whole run is
/// either available, in which case the cursor moves past all of it, or the
/// read fails with `BufferUnderrun` with the cursor left in place.
///
/// `p` is the mathematical meaning of `f`: the caller must show that `f`
/// returns exactly `p` of its argument.
pub fn read_filtered_run<F: Fn(u64) -> bool>(
    buf: &mut WalkingVec,
    count: u32,
    width: usize,
    f: &F,
    Ghost(p): Ghost<spec_fn(nat) -> bool>,
) -> (r: Result<Vec<u64>, TzError>)
    requires
        old(buf).wf(),
        1 <= width <= 8,
        forall|x: u64| #[trigger] call_requires(*f, (x,)),
        forall|x: u64, b: bool| #[trigger] call_ensures(*f, (x,), b) ==> b == p(x as nat),
    ensures
        final(buf).wf(),
        final(buf).bytes() == old(buf).bytes(),
        match r {
            Ok(kept) => {
                &&& old(buf).pos() + count as int * width as int <= old(buf).bytes().len()
                &&& final(buf).pos() == old(buf).pos() + count as int * width as int
                &&& kept@.map_values(|x: u64| x as nat) == (filtered_run(
                    old(buf).bytes().subrange(
                        old(buf).pos(),
                        old(buf).pos() + count as int * width as int,
                    ),
                    width as nat,
                    count as nat,
                    p,
                ))
                &&& forall|j: int|
                    0 <= j < kept@.len() ==> ((#[trigger] kept@[j]) as nat) < pow256(width as nat)
                &&& kept@.len() <= count
            },
            Err(e) => {
                &&& e == TzError::BufferUnderrun
                &&& old(buf).pos() + count as int * width as int > old(buf).bytes().len()
                &&& final(buf).pos() == old(buf).pos()
            },
        },
{
    proof {
        assert(count as int * width as int <= 0xFFFF_FFFF * 8) by (nonlinear_arith)
            requires
                count <= 0xFFFF_FFFFu32,
                width <= 8,
        ;
        assert(count as int * width as int >= 0) by (nonlinear_arith)
            requires
                count >= 0,
                width >= 1,
        ;
    }
    let needed: u64 = (count as u64) * (width as u64);
    let rem = buf.remaining();
    if needed > rem as u64 {
        return Err(TzError::BufferUnderrun);
    }
    let ghost base = old(buf).pos();
    let ghost s = old(buf).bytes().subrange(base, base + count as int * width as int);
    let mut kept: Vec<u64> = Vec::new();
    let mut i: u32 = 0;
    while i < count
        invariant
            buf.wf(),
            buf.bytes() == old(buf).bytes(),
            i <= count,
            1 <= width <= 8,
            buf.pos() == base + i as int * width as int,
            base >= 0,
            base + count as int * width as int <= buf.bytes().len(),
            s == old(buf).bytes().subrange(base, base + count as int * width as int),
            kept@.map_values(|x: u64| x as nat) == filtered_run(s, width as nat, i as nat, p),
            forall|j: int|
                0 <= j < kept@.len() ==> ((#[trigger] kept@[j]) as nat) < pow256(width as nat),
            forall|x: u64| #[trigger] call_requires(*f, (x,)),
            forall|x: u64, b: bool| #[trigger] call_ensures(*f, (x,), b) ==> b == p(x as nat),
        decreases count - i,
    {
        proof {
            assert((i as int + 1) * width as int <= count as int * width as int
                && i as int * width as int + width as int == (i as int + 1) * width as int)
                by (nonlinear_arith)
                requires
                    i < count,
                    width >= 1,
            ;
        }
        let ghost pre_pos = buf.pos();
        let v = match read_uint(buf, width) {
            Ok(v) => v,
            Err(_) => {
                proof {
                    assert(false);
                }
                return Err(TzError::BufferUnderrun);
            },
        };
        proof {
            lemma_le_uint_bound(s.subrange(i as int * width as int, (i as int + 1) * width as int));
            assert(s.subrange(i as int * width as int, (i as int + 1) * width as int)
                =~= old(buf).bytes().subrange(pre_pos, pre_pos + width as int));
            assert(v as nat == run_elem(s, width as nat, i as nat));
        }
        let keep = f(v);
        if keep {
            kept.push(v);
        }
        i = i + 1;
        proof {
            assert(kept@.map_values(|x: u64| x as nat) =~= filtered_run(
                s,
                width as nat,
                i as nat,
                p,
            ));
        }
    }
    proof {
        assert(buf.pos() == base + count as int * width as int);
        lemma_filtered_run_len(s, width as nat, count as nat, p);
        assert(kept@.len() == kept@.map_values(|x: u64| x as nat).len());
    }
    Ok(kept)
}

} // verus!
