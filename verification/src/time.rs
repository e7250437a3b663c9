use vstd::prelude::*;
use vstd::string::StringExecFns;

use crate::civil::civil_month;
use crate::civil::civil_text;
use crate::civil::civil_year;
use crate::civil::leap_year;
use crate::civil::lemma_months_in_year;
use crate::civil::month_days;
use crate::civil::months_rest;
use crate::civil::push_decimal;
use crate::civil::push_two_digits;
use crate::civil::year_days;
use crate::cursor::WalkingVec;
use crate::error::TzError;
use crate::tzif::block_len;
use crate::tzif::block_matches;
use crate::tzif::decode_data_block;
use crate::tzif::decode_header;
use crate::tzif::lemma_block_offsets;
use crate::tzif::magic_ok;
use crate::tzif::spec_header;
use crate::tzif::version_valid;
use crate::tzif::TzDataBlock;
use crate::tzif::TzHeader;

verus! {

/// The clock widget: a stable name, the rendered wall-clock text, a
/// display color, and the UTC offset in seconds applied to every reading
/// of the elapsed-seconds counter. The offset is computed once, at
/// construction; the text is recomputed on every update.
pub struct Time {
    name: &'static str,
    full_text: String,
    color: &'static str,
    tz_offset: u64,
}

impl Time {
    /// The widget's identifier.
    pub closed spec fn spec_name(&self) -> Seq<char> {
        self.name@
    }

    /// The text currently displayed.
    pub closed spec fn spec_text(&self) -> Seq<char> {
        self.full_text@
    }

    /// The display color.
    pub closed spec fn spec_color(&self) -> Seq<char> {
        self.color@
    }

    /// The stored UTC offset in seconds.
    pub closed spec fn spec_offset(&self) -> u64 {
        self.tz_offset
    }

    /// A fresh clock widget over the bytes of the configured time-zone
    /// file; the offset is derived from them once, at construction.
    pub fn new(tz_info_bytes: Vec<u8>) -> (t: Self)
        ensures
            t.spec_name() == "time"@,
            t.spec_text() == Seq::<char>::empty(),
            t.spec_color() == "#FFFFFF"@,
            t.spec_offset() == 0,
    {
        Time {
            name: "time",
            full_text: String::new(),
            color: "#FFFFFF",
            tz_offset: Self::timezone_offset(tz_info_bytes),
        }
    }

    /// Whether the given year is a Gregorian leap year.
    pub fn is_leap_year(year: u64) -> (r: bool)
        ensures
            r == leap_year(year as int),
    {
        (year % 4 == 0 && year % 100 != 0) || (year % 400 == 0)
    }

    /// How many days the given year has.
    pub fn days_in_year(year: u64) -> (r: u64)
        ensures
            r == year_days(year as int),
    {
        if Self::is_leap_year(year) {
            366
        } else {
            365
        }
    }

    /// How many days the given month of the given year has; leap years
    /// lengthen February.
    pub fn days_in_month(month: u64, year: u64) -> (r: u64)
        requires
            1 <= month <= 12,
        ensures
            r == month_days(month as int, year as int),
    {
        match month {
            1 | 3 | 5 | 7 | 8 | 10 | 12 => 31,
            4 | 6 | 9 | 11 => 30,
            _ => {
                if Self::is_leap_year(year) {
                    29
                } else {
                    28
                }
            },
        }
    }

    /// Decode one header and the data block it describes, the block sized
    /// by this very header's version. The signature and version byte are
    /// checked first; a file rejected for either yields no partial result.
    pub fn read_tz_info(buf: &mut WalkingVec) -> (r: Result<(TzHeader, TzDataBlock), TzError>)
        requires
            old(buf).wf(),
        ensures
            final(buf).wf(),
            final(buf).bytes() == old(buf).bytes(),
            match r {
                Ok(hd) => ({
                    let at = old(buf).pos();
                    let s = old(buf).bytes();
                    &&& at + 44 + block_len(hd.0) <= s.len()
                    &&& magic_ok(s, at)
                    &&& version_valid(s[at + 4])
                    &&& hd.0 == (spec_header(s, at))
                    &&& final(buf).pos() == at + 44 + block_len(hd.0)
                    &&& block_matches(hd.1, s.subrange(at + 44, at + 44 + block_len(hd.0)), hd.0)
                }),
                Err(e) => ({
                    let at = old(buf).pos();
                    let s = old(buf).bytes();
                    &&& (e == TzError::BadMagic <==> at + 4 <= s.len() && !magic_ok(s, at))
                    &&& (e == TzError::BadVersion <==> at + 5 <= s.len() && magic_ok(s, at)
                        && !version_valid(s[at + 4]))
                    &&& (e == TzError::BufferUnderrun <==> at + 4 > s.len() || (magic_ok(s, at) && (
                    at + 5 > s.len() || (version_valid(s[at + 4]) && at + 44 + block_len(
                        spec_header(s, at),
                    ) > s.len()))))
                }),
            },
    {
        let header = match decode_header(buf) {
            Ok(h) => h,
            Err(e) => {
                proof {
                    lemma_block_offsets(spec_header(old(buf).bytes(), old(buf).pos()));
                }
                return Err(e);
            },
        };
        let data = match decode_data_block(buf, &header) {
            Ok(d) => d,
            Err(e) => {
                return Err(e);
            },
        };
        Ok((header, data))
    }

    /// The UTC offset taken from the bytes of the configured time-zone
    /// file. The decode pipeline runs in full — for a version-2-or-later
    /// file the first block is consumed and discarded and the second one
    /// read in its place — but the offset is currently a fixed fallback
    /// value that does not consult the parsed records, so a malformed file
    /// degrades to the same fallback.
    pub fn timezone_offset(tz_info_bytes: Vec<u8>) -> (r: u64)
        ensures
            r == 0,
    {
        let offset: u64 = 0;
        let mut buf = WalkingVec::new(tz_info_bytes);
        match Self::read_tz_info(&mut buf) {
            Ok((header, _data)) => {
                if header.version > 1 {
                    let _ = Self::read_tz_info(&mut buf);
                }
            },
            Err(_) => {},
        }
        offset
    }

    /// Render the wall-clock text for the given reading of the
    /// elapsed-seconds counter, adjusted by the stored offset. The
    /// adjusted value must not wrap; a negative adjusted value cannot
    /// arise here since both summands are non-negative.
    pub fn now(&self, epoch_seconds: u64) -> (r: String)
        requires
            epoch_seconds + self.spec_offset() <= u64::MAX,
        ensures
            r@ == civil_text((epoch_seconds + self.spec_offset()) as nat),
    {
        let mut epoch: u64 = epoch_seconds + self.tz_offset;
        let ghost e0 = epoch as nat;
        let mut total_days: u64 = epoch / 86400;
        epoch = epoch % 86400;
        let hours = epoch / 3600;
        epoch = epoch % 3600;
        let minutes = epoch / 60;
        let seconds = epoch % 60;
        let ghost d0 = e0 / 86400;

        let mut current_year: u64 = 1970;
        while total_days >= Self::days_in_year(current_year)
            invariant
                1970 <= current_year,
                current_year - 1970 <= d0 - total_days,
                86400 * d0 <= 0xFFFF_FFFF_FFFF_FFFF,
                civil_year(1970, d0) == civil_year(current_year as int, total_days as nat),
            decreases total_days,
        {
            total_days = total_days - Self::days_in_year(current_year);
            current_year = current_year + 1;
        }

        proof {
            lemma_months_in_year(current_year as int);
        }
        let ghost rem0 = total_days as nat;
        let mut current_month: u64 = 1;
        while total_days >= Self::days_in_month(current_month, current_year)
            invariant
                1 <= current_month <= 12,
                (total_days as int) < months_rest(current_month as int, current_year as int),
                civil_month(1, current_year as int, rem0) == civil_month(
                    current_month as int,
                    current_year as int,
                    total_days as nat,
                ),
            decreases total_days,
        {
            proof {
                if current_month == 12 {
                    assert(months_rest(13, current_year as int) == 0);
                }
                assert(months_rest(current_month as int, current_year as int) == month_days(
                    current_month as int,
                    current_year as int,
                ) + months_rest(current_month as int + 1, current_year as int));
            }
            total_days = total_days - Self::days_in_month(current_month, current_year);
            current_month = current_month + 1;
        }

        let current_day = total_days + 1;
        let mut text = String::new();
        push_two_digits(&mut text, current_day);
        text.append(".");
        push_two_digits(&mut text, current_month);
        text.append(".");
        push_decimal(&mut text, current_year);
        text.append(" ");
        push_two_digits(&mut text, hours);
        text.append(":");
        push_two_digits(&mut text, minutes);
        text.append(":");
        push_two_digits(&mut text, seconds);
        proof {
            reveal_strlit(".");
            reveal_strlit(" ");
            reveal_strlit(":");
            assert("."@ =~= seq!['.']);
            assert(" "@ =~= seq![' ']);
            assert(":"@ =~= seq![':']);
            assert(text@ =~= civil_text(e0));
        }
        text
    }

    /// Recompute the displayed text from a fresh reading of the
    /// elapsed-seconds counter; nothing else changes.
    pub fn update(&mut self, epoch_seconds: u64)
        requires
            epoch_seconds + old(self).spec_offset() <= u64::MAX,
        ensures
            final(self).spec_text() == civil_text(
                (epoch_seconds + old(self).spec_offset()) as nat,
            ),
            final(self).spec_name() == old(self).spec_name(),
            final(self).spec_color() == old(self).spec_color(),
            final(self).spec_offset() == old(self).spec_offset(),
    {
        let text = self.now(epoch_seconds);
        self.full_text = text;
    }

    /// The widget's stable identifier.
    pub fn name(&self) -> (r: &'static str)
        ensures
            r@ == self.spec_name(),
    {
        self.name
    }

    /// The text currently displayed.
    pub fn full_text(&self) -> (r: &str)
        ensures
            r@ == self.spec_text(),
    {
        self.full_text.as_str()
    }

    /// The display color.
    pub fn color(&self) -> (r: &'static str)
        ensures
            r@ == self.spec_color(),
    {
        self.color
    }

    /// The UTC offset in seconds applied to every reading.
    pub fn tz_offset(&self) -> (r: u64)
        ensures
            r == self.spec_offset(),
    {
        self.tz_offset
    }
}

} // verus!
