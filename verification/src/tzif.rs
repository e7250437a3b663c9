use vstd::prelude::*;

use crate::cursor::WalkingVec;
use crate::error::TzError;
use crate::fields::filtered_run;
use crate::fields::le_int;
use crate::fields::le_uint;
use crate::fields::lemma_le_int_bound;
use crate::fields::lemma_le_uint_bound;
use crate::fields::lemma_le_uint_singleton;
use crate::fields::lemma_pow256_vals;
use crate::fields::read_filtered_run;
use crate::fields::read_int;
use crate::fields::read_uint;

verus! {

/// The fixed-size header of a time-zone file: a version marker and the six
/// counts that size every array of the data block that follows.
#[derive(Debug, PartialEq, Eq, Structural, Clone, Copy)]
pub struct TzHeader {
    pub version: u8,
    pub isutcnt: u32,
    pub isstdcnt: u32,
    pub leapcnt: u32,
    pub timecnt: u32,
    pub typecnt: u32,
    pub charcnt: u32,
}

/// The variable-length payload of a time-zone file, with only the records
/// that pass each field's retention predicate.
#[derive(Debug, PartialEq, Eq)]
pub struct TzDataBlock {
    pub transition_times: Vec<i64>,
    pub transition_types: Vec<u8>,
    pub local_time_type_records: Vec<(i32, u8, u8)>,
    pub time_zone_designations: Vec<u8>,
    pub leap_second_records: Vec<(u64, i32)>,
    pub standard_wall_indicators: Vec<u8>,
    pub ut_local_indicators: Vec<u8>,
}

/// The four signature bytes spell `TZif` in ASCII.
pub open spec fn magic_ok(s: Seq<u8>, at: int) -> bool {
    s.subrange(at, at + 4) == seq![0x54u8, 0x5Au8, 0x69u8, 0x66u8]
}

/// The version byte is one of the four recognized markers.
pub open spec fn version_valid(b: u8) -> bool {
    b == 0x00 || b == 0x32 || b == 0x33 || b == 0x34
}

/// The version number a valid marker byte denotes.
pub open spec fn version_of(b: u8) -> u8 {
    if b == 0x00 {
        1
    } else if b == 0x32 {
        2
    } else if b == 0x33 {
        3
    } else {
        4
    }
}

/// The header encoded at position `at`: the version marker at offset 4 and,
/// after 15 reserved bytes, six little-endian 32-bit counts.
pub open spec fn spec_header(s: Seq<u8>, at: int) -> TzHeader {
    TzHeader {
        version: version_of(s[at + 4]),
        isutcnt: le_uint(s.subrange(at + 20, at + 24)) as u32,
        isstdcnt: le_uint(s.subrange(at + 24, at + 28)) as u32,
        leapcnt: le_uint(s.subrange(at + 28, at + 32)) as u32,
        timecnt: le_uint(s.subrange(at + 32, at + 36)) as u32,
        typecnt: le_uint(s.subrange(at + 36, at + 40)) as u32,
        charcnt: le_uint(s.subrange(at + 40, at + 44)) as u32,
    }
}

/// Read one little-endian 32-bit count field.
fn read_count(buf: &mut WalkingVec) -> (r: Result<u32, TzError>)
    requires
        old(buf).wf(),
    ensures
        final(buf).wf(),
        final(buf).bytes() == old(buf).bytes(),
        match r {
            Ok(v) => {
                &&& old(buf).pos() + 4 <= old(buf).bytes().len()
                &&& final(buf).pos() == old(buf).pos() + 4
                &&& v as nat == le_uint(
                    old(buf).bytes().subrange(old(buf).pos(), old(buf).pos() + 4),
                )
            },
            Err(e) => {
                &&& e == TzError::BufferUnderrun
                &&& old(buf).pos() + 4 > old(buf).bytes().len()
                &&& final(buf).pos() == old(buf).pos()
            },
        },
{
    let v = match read_uint(buf, 4) {
        Ok(v) => v,
        Err(e) => {
            return Err(e);
        },
    };
    proof {
        lemma_le_uint_bound(old(buf).bytes().subrange(old(buf).pos(), old(buf).pos() + 4));
        lemma_pow256_vals();
    }
    Ok(v as u32)
}

/// Decode the fixed 44-byte header: the `TZif` signature, the version
/// marker, 15 reserved bytes that are skipped, and the six counts, in that
/// order. On success the cursor stands exactly 44 bytes further, whatever
/// the counts say.
pub fn decode_header(buf: &mut WalkingVec) -> (r: Result<TzHeader, TzError>)
    requires
        old(buf).wf(),
    ensures
        final(buf).wf(),
        final(buf).bytes() == old(buf).bytes(),
        match r {
            Ok(h) => {
                &&& old(buf).pos() + 44 <= old(buf).bytes().len()
                &&& magic_ok(old(buf).bytes(), old(buf).pos())
                &&& version_valid(old(buf).bytes()[old(buf).pos() + 4])
                &&& h == (spec_header(old(buf).bytes(), old(buf).pos()))
                &&& final(buf).pos() == old(buf).pos() + 44
            },
            Err(e) => {
                &&& (e == TzError::BadMagic <==> old(buf).pos() + 4 <= old(buf).bytes().len()
                    && !magic_ok(old(buf).bytes(), old(buf).pos()))
                &&& (e == TzError::BadVersion <==> old(buf).pos() + 5 <= old(buf).bytes().len()
                    && magic_ok(old(buf).bytes(), old(buf).pos()) && !version_valid(
                    old(buf).bytes()[old(buf).pos() + 4],
                ))
                &&& (e == TzError::BufferUnderrun <==> old(buf).pos() + 4 > old(
                    buf,
                ).bytes().len() || (magic_ok(old(buf).bytes(), old(buf).pos()) && (old(buf).pos()
                    + 5 > old(buf).bytes().len() || (version_valid(
                    old(buf).bytes()[old(buf).pos() + 4],
                ) && old(buf).pos() + 44 > old(buf).bytes().len()))))
            },
        },
{
    let ghost at = old(buf).pos();
    let ghost s = old(buf).bytes();
    let magic = match buf.walk(4) {
        Ok(m) => m,
        Err(e) => {
            return Err(e);
        },
    };
    if !(magic[0] == 0x54 && magic[1] == 0x5A && magic[2] == 0x69 && magic[3] == 0x66) {
        proof {
            assert(s.subrange(at, at + 4) != seq![0x54u8, 0x5Au8, 0x69u8, 0x66u8]) by {
                if s.subrange(at, at + 4) == seq![0x54u8, 0x5Au8, 0x69u8, 0x66u8] {
                    assert(magic@[0] == 0x54 && magic@[1] == 0x5A && magic@[2] == 0x69
                        && magic@[3] == 0x66);
                }
            }
        }
        return Err(TzError::BadMagic);
    }
    proof {
        assert(s.subrange(at, at + 4) =~= seq![0x54u8, 0x5Au8, 0x69u8, 0x66u8]);
    }
    let vb = match read_uint(buf, 1) {
        Ok(v) => v,
        Err(e) => {
            return Err(e);
        },
    };
    proof {
        lemma_le_uint_singleton(s, at + 4);
        assert(vb == s[at + 4]);
    }
    let version: u8 = if vb == 0x00 {
        1
    } else if vb == 0x32 {
        2
    } else if vb == 0x33 {
        3
    } else if vb == 0x34 {
        4
    } else {
        return Err(TzError::BadVersion);
    };
    match buf.walk(15) {
        Ok(_) => (),
        Err(e) => {
            return Err(e);
        },
    };
    let isutcnt = match read_count(buf) {
        Ok(v) => v,
        Err(e) => {
            return Err(e);
        },
    };
    let isstdcnt = match read_count(buf) {
        Ok(v) => v,
        Err(e) => {
            return Err(e);
        },
    };
    let leapcnt = match read_count(buf) {
        Ok(v) => v,
        Err(e) => {
            return Err(e);
        },
    };
    let timecnt = match read_count(buf) {
        Ok(v) => v,
        Err(e) => {
            return Err(e);
        },
    };
    let typecnt = match read_count(buf) {
        Ok(v) => v,
        Err(e) => {
            return Err(e);
        },
    };
    let charcnt = match read_count(buf) {
        Ok(v) => v,
        Err(e) => {
            return Err(e);
        },
    };
    Ok(TzHeader { version, isutcnt, isstdcnt, leapcnt, timecnt, typecnt, charcnt })
}

/// Transition times and leap-second occurrences are 8 bytes wide from
/// version 2 on, 4 bytes wide before; the width follows the version of the
/// block's own header, not the file's nominal version.
pub open spec fn time_size(version: u8) -> int {
    if version > 1 {
        8
    } else {
        4
    }
}

/// A transition time is retained only when it lies above the far-past
/// cutoff of -2^59 seconds.
pub open spec fn keep_transition_time(v: int) -> bool {
    v > -0x0800_0000_0000_0000
}

/// The retained values of a run of `count` signed transition times of `tw`
/// bytes each, in the order they were read.
pub open spec fn spec_transition_times(s: Seq<u8>, tw: int, count: nat) -> Seq<i64>
    decreases count,
{
    if count == 0 {
        Seq::empty()
    } else {
        let prev = spec_transition_times(s, tw, (count - 1) as nat);
        let v = le_int(s.subrange((count - 1) as int * tw, count as int * tw));
        if keep_transition_time(v) {
            prev.push(v as i64)
        } else {
            prev
        }
    }
}

/// A transition-type or designation byte is retained only below the
/// type-count threshold.
pub open spec fn keep_type_index(v: nat, typecnt: u32) -> bool {
    v < typecnt - 1
}

/// A standard/wall or UT/local indicator is retained only when it is a
/// boolean.
pub open spec fn keep_indicator(v: nat) -> bool {
    v == 0 || v == 1
}

/// The type-index retention predicate as a value, so that callers and
/// contracts speak of one and the same function.
pub open spec fn type_index_pred(typecnt: u32) -> spec_fn(nat) -> bool {
    |v: nat| keep_type_index(v, typecnt)
}

/// The indicator retention predicate as a value.
pub open spec fn indicator_pred() -> spec_fn(nat) -> bool {
    |v: nat| keep_indicator(v)
}

/// A local-time-type record is retained when its offset is inside the valid
/// range and its daylight-saving flag is a boolean.
pub open spec fn keep_lttr(utoff: int, dst: nat) -> bool {
    utoff != -0x1_0000_0000 && -89999 < utoff && utoff < 93599 && (dst == 0 || dst == 1)
}

/// The retained local-time-type records of a run of `count` six-byte
/// records: a four-byte offset, a daylight flag and a designation index.
pub open spec fn spec_lttrs(s: Seq<u8>, count: nat) -> Seq<(i32, u8, u8)>
    decreases count,
{
    if count == 0 {
        Seq::empty()
    } else {
        let prev = spec_lttrs(s, (count - 1) as nat);
        let base = (count - 1) as int * 6;
        let utoff = le_int(s.subrange(base, base + 4));
        let dst = s[base + 4];
        let idx = s[base + 5];
        if keep_lttr(utoff, dst as nat) {
            prev.push((utoff as i32, dst, idx))
        } else {
            prev
        }
    }
}

/// The occurrence field of the `i`-th leap-second record.
pub open spec fn leap_occ(s: Seq<u8>, ow: int, i: int) -> int {
    le_uint(s.subrange(i * (ow + 4), i * (ow + 4) + ow)) as int
}

/// The correction field of the `i`-th leap-second record.
pub open spec fn leap_corr(s: Seq<u8>, ow: int, i: int) -> int {
    le_int(s.subrange(i * (ow + 4) + ow, i * (ow + 4) + ow + 4))
}

/// The retained leap-second records from index `i` on, given the occurrence
/// of the previously retained record: a record is kept only when it is at
/// least 2419199 seconds after that occurrence.
pub open spec fn spec_leaps_from(s: Seq<u8>, ow: int, count: nat, i: nat, last: int) -> Seq<
    (u64, i32),
>
    decreases count - i,
{
    if i >= count {
        Seq::empty()
    } else {
        let occ = leap_occ(s, ow, i as int);
        let corr = leap_corr(s, ow, i as int);
        if occ - last >= 2419199 {
            seq![(occ as u64, corr as i32)] + spec_leaps_from(s, ow, count, (i + 1) as nat, occ)
        } else {
            spec_leaps_from(s, ow, count, (i + 1) as nat, last)
        }
    }
}

/// The retained leap-second records of a run of `count` records: the first
/// is kept unconditionally, later ones against the previously retained
/// occurrence.
pub open spec fn spec_leaps(s: Seq<u8>, ow: int, count: nat) -> Seq<(u64, i32)> {
    if count == 0 {
        Seq::empty()
    } else {
        seq![(leap_occ(s, ow, 0) as u64, leap_corr(s, ow, 0) as i32)] + spec_leaps_from(
            s,
            ow,
            count,
            1,
            leap_occ(s, ow, 0),
        )
    }
}

/// Decode `count` signed transition times of `tw` bytes each, keeping only
/// those above the far-past cutoff. The cursor does not move on failure.
pub fn read_transition_times(buf: &mut WalkingVec, count: u32, tw: usize) -> (r: Result<
    Vec<i64>,
    TzError,
>)
    requires
        old(buf).wf(),
        tw == 4 || tw == 8,
    ensures
        final(buf).wf(),
        final(buf).bytes() == old(buf).bytes(),
        match r {
            Ok(v) => {
                &&& old(buf).pos() + count as int * tw as int <= old(buf).bytes().len()
                &&& final(buf).pos() == old(buf).pos() + count as int * tw as int
                &&& v@ == spec_transition_times(
                    old(buf).bytes().subrange(
                        old(buf).pos(),
                        old(buf).pos() + count as int * tw as int,
                    ),
                    tw as int,
                    count as nat,
                )
            },
            Err(e) => {
                &&& e == TzError::BufferUnderrun
                &&& old(buf).pos() + count as int * tw as int > old(buf).bytes().len()
                &&& final(buf).pos() == old(buf).pos()
            },
        },
{
    proof {
        assert(0 <= count as int * tw as int <= 0xFFFF_FFFF * 8) by (nonlinear_arith)
            requires
                count <= 0xFFFF_FFFFu32,
                tw == 4 || tw == 8,
        ;
    }
    let needed: u64 = (count as u64) * (tw as u64);
    let rem = buf.remaining();
    if needed > rem as u64 {
        return Err(TzError::BufferUnderrun);
    }
    let ghost base = old(buf).pos();
    let ghost s = old(buf).bytes().subrange(base, base + count as int * tw as int);
    let mut out: Vec<i64> = Vec::new();
    let mut i: u32 = 0;
    while i < count
        invariant
            buf.wf(),
            buf.bytes() == old(buf).bytes(),
            i <= count,
            tw == 4 || tw == 8,
            buf.pos() == base + i as int * tw as int,
            base >= 0,
            base + count as int * tw as int <= buf.bytes().len(),
            s == old(buf).bytes().subrange(base, base + count as int * tw as int),
            out@ == spec_transition_times(s, tw as int, i as nat),
        decreases count - i,
    {
        proof {
            assert((i as int + 1) * tw as int <= count as int * tw as int && i as int * tw as int
                + tw as int == (i as int + 1) * tw as int) by (nonlinear_arith)
                requires
                    i < count,
                    tw >= 1,
            ;
        }
        let ghost pre_pos = buf.pos();
        let v = match read_int(buf, tw) {
            Ok(v) => v,
            Err(_) => {
                proof {
                    assert(false);
                }
                return Err(TzError::BufferUnderrun);
            },
        };
        proof {
            assert(s.subrange(i as int * tw as int, (i as int + 1) * tw as int) =~= old(
                buf,
            ).bytes().subrange(pre_pos, pre_pos + tw as int));
        }
        if v > -0x0800_0000_0000_0000i64 {
            out.push(v);
        }
        i = i + 1;
        proof {
            assert(out@ =~= spec_transition_times(s, tw as int, i as nat));
        }
    }
    Ok(out)
}

/// Decode `count` six-byte local-time-type records, keeping only those that
/// pass the retention predicate. The cursor does not move on failure.
pub fn read_lttrs(buf: &mut WalkingVec, count: u32) -> (r: Result<Vec<(i32, u8, u8)>, TzError>)
    requires
        old(buf).wf(),
    ensures
        final(buf).wf(),
        final(buf).bytes() == old(buf).bytes(),
        match r {
            Ok(v) => {
                &&& old(buf).pos() + count as int * 6 <= old(buf).bytes().len()
                &&& final(buf).pos() == old(buf).pos() + count as int * 6
                &&& v@ == spec_lttrs(
                    old(buf).bytes().subrange(old(buf).pos(), old(buf).pos() + count as int * 6),
                    count as nat,
                )
            },
            Err(e) => {
                &&& e == TzError::BufferUnderrun
                &&& old(buf).pos() + count as int * 6 > old(buf).bytes().len()
                &&& final(buf).pos() == old(buf).pos()
            },
        },
{
    proof {
        assert(0 <= count as int * 6 <= 0xFFFF_FFFF * 6) by (nonlinear_arith)
            requires
                count <= 0xFFFF_FFFFu32,
        ;
    }
    let needed: u64 = (count as u64) * 6;
    let rem = buf.remaining();
    if needed > rem as u64 {
        return Err(TzError::BufferUnderrun);
    }
    let ghost base = old(buf).pos();
    let ghost s = old(buf).bytes().subrange(base, base + count as int * 6);
    let mut out: Vec<(i32, u8, u8)> = Vec::new();
    let mut i: u32 = 0;
    while i < count
        invariant
            buf.wf(),
            buf.bytes() == old(buf).bytes(),
            i <= count,
            buf.pos() == base + i as int * 6,
            base >= 0,
            base + count as int * 6 <= buf.bytes().len(),
            s == old(buf).bytes().subrange(base, base + count as int * 6),
            out@ == spec_lttrs(s, i as nat),
        decreases count - i,
    {
        proof {
            assert((i as int + 1) * 6 <= count as int * 6 && i as int * 6 + 6 == (i as int + 1)
                * 6) by (nonlinear_arith)
                requires
                    i < count,
            ;
        }
        let ghost p0 = buf.pos();
        let utoff64 = match read_int(buf, 4) {
            Ok(v) => v,
            Err(_) => {
                proof {
                    assert(false);
                }
                return Err(TzError::BufferUnderrun);
            },
        };
        let dst64 = match read_uint(buf, 1) {
            Ok(v) => v,
            Err(_) => {
                proof {
                    assert(false);
                }
                return Err(TzError::BufferUnderrun);
            },
        };
        let idx64 = match read_uint(buf, 1) {
            Ok(v) => v,
            Err(_) => {
                proof {
                    assert(false);
                }
                return Err(TzError::BufferUnderrun);
            },
        };
        proof {
            lemma_le_int_bound(old(buf).bytes().subrange(p0, p0 + 4));
            lemma_pow256_vals();
            assert(s.subrange(i as int * 6, i as int * 6 + 4) =~= old(buf).bytes().subrange(
                p0,
                p0 + 4,
            ));
            lemma_le_uint_singleton(old(buf).bytes(), p0 + 4);
            assert(old(buf).bytes().subrange(p0 + 4, p0 + 5) =~= old(buf).bytes().subrange(
                p0 + 4,
                p0 + 4 + 1,
            ));
            lemma_le_uint_singleton(old(buf).bytes(), p0 + 5);
            assert(old(buf).bytes().subrange(p0 + 5, p0 + 6) =~= old(buf).bytes().subrange(
                p0 + 5,
                p0 + 5 + 1,
            ));
            assert(s[i as int * 6 + 4] == old(buf).bytes()[p0 + 4]);
            assert(s[i as int * 6 + 5] == old(buf).bytes()[p0 + 5]);
        }
        let utoff = utoff64 as i32;
        let dst = dst64 as u8;
        let idx = idx64 as u8;
        if utoff > -89999 && utoff < 93599 && (dst == 0 || dst == 1) {
            out.push((utoff, dst, idx));
        }
        i = i + 1;
        proof {
            assert(out@ =~= spec_lttrs(s, i as nat));
        }
    }
    Ok(out)
}

/// Decode `count` leap-second records of an `ow`-byte occurrence and a
/// four-byte correction each, with the retention rule of `spec_leaps`. The
/// cursor does not move on failure.
pub fn read_leap_records(buf: &mut WalkingVec, count: u32, ow: usize) -> (r: Result<
    Vec<(u64, i32)>,
    TzError,
>)
    requires
        old(buf).wf(),
        ow == 4 || ow == 8,
    ensures
        final(buf).wf(),
        final(buf).bytes() == old(buf).bytes(),
        match r {
            Ok(v) => {
                &&& old(buf).pos() + count as int * (ow + 4) <= old(buf).bytes().len()
                &&& final(buf).pos() == old(buf).pos() + count as int * (ow + 4)
                &&& v@ == spec_leaps(
                    old(buf).bytes().subrange(
                        old(buf).pos(),
                        old(buf).pos() + count as int * (ow + 4),
                    ),
                    ow as int,
                    count as nat,
                )
            },
            Err(e) => {
                &&& e == TzError::BufferUnderrun
                &&& old(buf).pos() + count as int * (ow + 4) > old(buf).bytes().len()
                &&& final(buf).pos() == old(buf).pos()
            },
        },
{
    proof {
        assert(0 <= count as int * (ow + 4) <= 0xFFFF_FFFF * 12) by (nonlinear_arith)
            requires
                count <= 0xFFFF_FFFFu32,
                ow == 4 || ow == 8,
        ;
    }
    let needed: u64 = (count as u64) * ((ow as u64) + 4);
    let rem = buf.remaining();
    if needed > rem as u64 {
        return Err(TzError::BufferUnderrun);
    }
    let ghost base = old(buf).pos();
    let ghost rw = ow as int + 4;
    let ghost s = old(buf).bytes().subrange(base, base + count as int * rw);
    let mut out: Vec<(u64, i32)> = Vec::new();
    let mut last: u64 = 0;
    let mut i: u32 = 0;
    while i < count
        invariant
            buf.wf(),
            buf.bytes() == old(buf).bytes(),
            i <= count,
            ow == 4 || ow == 8,
            rw == ow as int + 4,
            buf.pos() == base + i as int * rw,
            base >= 0,
            base + count as int * rw <= buf.bytes().len(),
            s == old(buf).bytes().subrange(base, base + count as int * rw),
            i == 0 ==> out@ == Seq::<(u64, i32)>::empty(),
            i > 0 ==> spec_leaps(s, ow as int, count as nat) == out@ + spec_leaps_from(
                s,
                ow as int,
                count as nat,
                i as nat,
                last as int,
            ),
        decreases count - i,
    {
        proof {
            assert((i as int + 1) * rw <= count as int * rw && i as int * rw + rw == (i as int + 1)
                * rw) by (nonlinear_arith)
                requires
                    i < count,
                    rw >= 1,
            ;
        }
        let ghost p0 = buf.pos();
        let occ = match read_uint(buf, ow) {
            Ok(v) => v,
            Err(_) => {
                proof {
                    assert(false);
                }
                return Err(TzError::BufferUnderrun);
            },
        };
        let corr64 = match read_int(buf, 4) {
            Ok(v) => v,
            Err(_) => {
                proof {
                    assert(false);
                }
                return Err(TzError::BufferUnderrun);
            },
        };
        proof {
            lemma_le_int_bound(old(buf).bytes().subrange(p0 + ow, p0 + ow + 4));
            lemma_pow256_vals();
            assert(s.subrange(i as int * rw, i as int * rw + ow) =~= old(buf).bytes().subrange(
                p0,
                p0 + ow,
            ));
            assert(s.subrange(i as int * rw + ow, i as int * rw + ow + 4) =~= old(
                buf,
            ).bytes().subrange(p0 + ow, p0 + ow + 4));
            assert(occ as int == leap_occ(s, ow as int, i as int));
            assert(corr64 as int == leap_corr(s, ow as int, i as int));
        }
        let corr = corr64 as i32;
        let ghost out_before = out@;
        let ghost last_before = last;
        if i == 0 {
            out.push((occ, corr));
            last = occ;
            proof {
                assert(spec_leaps(s, ow as int, count as nat) == seq![
                    (leap_occ(s, ow as int, 0) as u64, leap_corr(s, ow as int, 0) as i32),
                ] + spec_leaps_from(s, ow as int, count as nat, 1, leap_occ(s, ow as int, 0)));
                assert(out@ =~= seq![
                    (leap_occ(s, ow as int, 0) as u64, leap_corr(s, ow as int, 0) as i32),
                ]);
            }
        } else if occ >= 2419199 && occ - 2419199 >= last {
            out.push((occ, corr));
            last = occ;
            proof {
                let rest = spec_leaps_from(s, ow as int, count as nat, i as nat + 1, occ as int);
                assert(spec_leaps_from(s, ow as int, count as nat, i as nat, last_before as int)
                    == seq![(occ, corr)] + rest);
                assert(out_before + (seq![(occ, corr)] + rest) =~= out@ + rest);
            }
        } else {
            proof {
                assert(spec_leaps_from(s, ow as int, count as nat, i as nat, last_before as int)
                    == spec_leaps_from(s, ow as int, count as nat, i as nat + 1, last as int));
            }
        }
        i = i + 1;
    }
    proof {
        if count == 0 {
            assert(out@ =~= spec_leaps(s, ow as int, count as nat));
        } else {
            assert(spec_leaps_from(s, ow as int, count as nat, count as nat, last as int)
                =~= Seq::<(u64, i32)>::empty());
            assert(out@ + spec_leaps_from(s, ow as int, count as nat, count as nat, last as int)
                =~= out@);
        }
    }
    Ok(out)
}

/// End offset, relative to the start of the data block, of the transition
/// times; the following functions give the end of each later field.
pub open spec fn tt_end(h: TzHeader) -> int {
    h.timecnt as int * time_size(h.version)
}

pub open spec fn types_end(h: TzHeader) -> int {
    tt_end(h) + h.timecnt as int
}

pub open spec fn lttr_end(h: TzHeader) -> int {
    types_end(h) + h.typecnt as int * 6
}

pub open spec fn desig_end(h: TzHeader) -> int {
    lttr_end(h) + h.charcnt as int
}

pub open spec fn leap_end(h: TzHeader) -> int {
    desig_end(h) + h.typecnt as int * (time_size(h.version) + 4)
}

pub open spec fn stdwall_end(h: TzHeader) -> int {
    leap_end(h) + h.isstdcnt as int
}

/// The total size in bytes of the data block that `h` describes.
pub open spec fn block_len(h: TzHeader) -> int {
    stdwall_end(h) + h.isutcnt as int
}

/// The field offsets grow monotonically from zero.
pub proof fn lemma_block_offsets(h: TzHeader)
    ensures
        0 <= tt_end(h) <= types_end(h) <= lttr_end(h) <= desig_end(h) <= leap_end(h) <= stdwall_end(
            h,
        ) <= block_len(h),
{
    assert(h.timecnt as int * time_size(h.version) >= 0 && h.typecnt as int * 6 >= 0
        && h.typecnt as int * (time_size(h.version) + 4) >= 0) by (nonlinear_arith)
        requires
            h.timecnt >= 0,
            h.typecnt >= 0,
            time_size(h.version) == 4 || time_size(h.version) == 8,
    ;
}

/// The data block `d` holds exactly the retained records of the block
/// encoded in the byte region `s`, whose first byte is the block's start,
/// as sized by the header `h`.
pub open spec fn block_matches(d: TzDataBlock, s: Seq<u8>, h: TzHeader) -> bool {
    &&& d.transition_times@ == spec_transition_times(
        s.subrange(0, tt_end(h)),
        time_size(h.version),
        h.timecnt as nat,
    )
    &&& d.transition_types@.map_values(|x: u8| x as nat) == filtered_run(
        s.subrange(tt_end(h), types_end(h)),
        1,
        h.timecnt as nat,
        type_index_pred(h.typecnt),
    )
    &&& d.local_time_type_records@ == spec_lttrs(
        s.subrange(types_end(h), lttr_end(h)),
        h.typecnt as nat,
    )
    &&& d.time_zone_designations@.map_values(|x: u8| x as nat) == filtered_run(
        s.subrange(lttr_end(h), desig_end(h)),
        1,
        h.charcnt as nat,
        type_index_pred(h.typecnt),
    )
    &&& d.leap_second_records@ == spec_leaps(
        s.subrange(desig_end(h), leap_end(h)),
        time_size(h.version),
        h.typecnt as nat,
    )
    &&& d.standard_wall_indicators@.map_values(|x: u8| x as nat) == filtered_run(
        s.subrange(leap_end(h), stdwall_end(h)),
        1,
        h.isstdcnt as nat,
        indicator_pred(),
    )
    &&& d.ut_local_indicators@.map_values(|x: u8| x as nat) == filtered_run(
        s.subrange(stdwall_end(h), block_len(h)),
        1,
        h.isutcnt as nat,
        indicator_pred(),
    )
}

/// Narrow the values of a one-byte filtered run back to bytes.
fn run_to_bytes(v: &Vec<u64>) -> (r: Vec<u8>)
    requires
        forall|j: int| 0 <= j < v@.len() ==> #[trigger] v@[j] < 256,
    ensures
        r@.map_values(|x: u8| x as nat) == v@.map_values(|x: u64| x as nat),
{
    let mut r: Vec<u8> = Vec::new();
    let mut i: usize = 0;
    while i < v.len()
        invariant
            i <= v@.len(),
            forall|j: int| 0 <= j < v@.len() ==> #[trigger] v@[j] < 256,
            r@.len() == i,
            forall|j: int| 0 <= j < i ==> (#[trigger] r@[j]) as nat == v@[j] as nat,
        decreases v@.len() - i,
    {
        r.push(v[i] as u8);
        i = i + 1;
    }
    proof {
        assert(r@.map_values(|x: u8| x as nat) =~= v@.map_values(|x: u64| x as nat));
    }
    r
}

/// Decode the data block that the header `h` describes, field by field in
/// the fixed order, keeping in each array only the records that pass its
/// retention predicate. On success the cursor stands exactly `block_len(h)`
/// bytes further; the read fails with `BufferUnderrun` exactly when the
/// block does not fit in the remaining bytes.
#[verifier::rlimit(80)]
#[verifier::spinoff_prover]
pub fn decode_data_block(buf: &mut WalkingVec, h: &TzHeader) -> (r: Result<TzDataBlock, TzError>)
    requires
        old(buf).wf(),
    ensures
        final(buf).wf(),
        final(buf).bytes() == old(buf).bytes(),
        match r {
            Ok(d) => ({
                let at = old(buf).pos();
                &&& at + block_len(*h) <= old(buf).bytes().len()
                &&& final(buf).pos() == at + block_len(*h)
                &&& block_matches(d, old(buf).bytes().subrange(at, at + block_len(*h)), *h)
            }),
            Err(e) => {
                &&& e == TzError::BufferUnderrun
                &&& old(buf).pos() + block_len(*h) > old(buf).bytes().len()
            },
        },
{
    let ghost at = old(buf).pos();
    let ghost whole = old(buf).bytes();
    proof {
        lemma_block_offsets(*h);
    }
    let tw: usize = if h.version > 1 {
        8
    } else {
        4
    };
    let tcnt: u32 = h.typecnt;

    let transition_times = match read_transition_times(buf, h.timecnt, tw) {
        Ok(v) => v,
        Err(e) => {
            return Err(e);
        },
    };

    let type_filter = |v: u64| -> (b: bool)
        ensures
            b == keep_type_index(v as nat, tcnt),
        { tcnt >= 1 && v < ((tcnt - 1) as u64) };
    let ghost p1 = buf.pos();
    let types_raw = match read_filtered_run(
        buf,
        h.timecnt,
        1,
        &type_filter,
        Ghost(type_index_pred(tcnt)),
    ) {
        Ok(v) => v,
        Err(e) => {
            return Err(e);
        },
    };
    proof {
        lemma_pow256_vals();
    }
    let transition_types = run_to_bytes(&types_raw);

    let local_time_type_records = match read_lttrs(buf, h.typecnt) {
        Ok(v) => v,
        Err(e) => {
            return Err(e);
        },
    };

    let ghost p3 = buf.pos();
    let desigs_raw = match read_filtered_run(
        buf,
        h.charcnt,
        1,
        &type_filter,
        Ghost(type_index_pred(tcnt)),
    ) {
        Ok(v) => v,
        Err(e) => {
            return Err(e);
        },
    };
    let time_zone_designations = run_to_bytes(&desigs_raw);

    let leap_second_records = match read_leap_records(buf, h.typecnt, tw) {
        Ok(v) => v,
        Err(e) => {
            return Err(e);
        },
    };

    let indicator_filter = |v: u64| -> (b: bool)
        ensures
            b == keep_indicator(v as nat),
        { v == 0 || v == 1 };
    let ghost p5 = buf.pos();
    let stdwall_raw = match read_filtered_run(
        buf,
        h.isstdcnt,
        1,
        &indicator_filter,
        Ghost(indicator_pred()),
    ) {
        Ok(v) => v,
        Err(e) => {
            return Err(e);
        },
    };
    let standard_wall_indicators = run_to_bytes(&stdwall_raw);

    let ghost p6 = buf.pos();
    let utlocal_raw = match read_filtered_run(
        buf,
        h.isutcnt,
        1,
        &indicator_filter,
        Ghost(indicator_pred()),
    ) {
        Ok(v) => v,
        Err(e) => {
            return Err(e);
        },
    };
    let ut_local_indicators = run_to_bytes(&utlocal_raw);

    proof {
        let s = whole.subrange(at, at + block_len(*h));
        assert(s.subrange(0, tt_end(*h)) =~= whole.subrange(at, at + tt_end(*h)));
        assert(s.subrange(tt_end(*h), types_end(*h)) =~= whole.subrange(
            at + tt_end(*h),
            at + types_end(*h),
        ));
        assert(s.subrange(types_end(*h), lttr_end(*h)) =~= whole.subrange(
            at + types_end(*h),
            at + lttr_end(*h),
        ));
        assert(s.subrange(lttr_end(*h), desig_end(*h)) =~= whole.subrange(
            at + lttr_end(*h),
            at + desig_end(*h),
        ));
        assert(s.subrange(desig_end(*h), leap_end(*h)) =~= whole.subrange(
            at + desig_end(*h),
            at + leap_end(*h),
        ));
        assert(s.subrange(leap_end(*h), stdwall_end(*h)) =~= whole.subrange(
            at + leap_end(*h),
            at + stdwall_end(*h),
        ));
        assert(s.subrange(stdwall_end(*h), block_len(*h)) =~= whole.subrange(
            at + stdwall_end(*h),
            at + block_len(*h),
        ));
    }

    Ok(
        TzDataBlock {
            transition_times,
            transition_types,
            local_time_type_records,
            time_zone_designations,
            leap_second_records,
            standard_wall_indicators,
            ut_local_indicators,
        },
    )
}

} // verus!
