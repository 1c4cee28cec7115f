//! The kernel's `TILE` connector property.

use vstd::prelude::*;

verus! {

/// Parsed kernel `TILE` connector property blob.
///
/// The kernel encodes tiled-display topology (from the DisplayID Tiled Display Topology data
/// block) as a string: `group_id:single_monitor:num_h_tiles:num_v_tiles:tile_h_loc:tile_v_loc:
/// tile_w:tile_h`. For example, the left tile of an LG UltraFine 5K reads
/// `"1:1:2:1:0:0:2560:2880"` and the right tile `"1:1:2:1:1:0:2560:2880"`.
#[derive(Debug, Clone, Copy, PartialEq, Eq, Structural)]
pub struct TileInfo {
    pub group_id: u32,
    pub single_monitor: bool,
    pub num_h_tiles: u32,
    pub num_v_tiles: u32,
    pub tile_h_loc: u32,
    pub tile_v_loc: u32,
    pub tile_w: u32,
    pub tile_h: u32,
}

// ---------------------------------------------------------------------------------------------
// Model
// ---------------------------------------------------------------------------------------------

/// The bytes without the NUL bytes at their end.
pub open spec fn trimmed(bytes: Seq<u8>) -> Seq<u8>
    decreases bytes.len(),
{
    if bytes.len() > 0 && bytes.last() == 0 {
        trimmed(bytes.drop_last())
    } else {
        bytes
    }
}

/// The parts between colons; there is one more of them than there are colons.
pub open spec fn fields(bytes: Seq<u8>) -> Seq<Seq<u8>>
    decreases bytes.len(),
{
    if bytes.len() == 0 {
        seq![Seq::empty()]
    } else {
        let before = fields(bytes.drop_last());
        if bytes.last() == 58u8 {
            before.push(Seq::empty())
        } else {
            before.drop_last().push(before.last().push(bytes.last()))
        }
    }
}

/// Whether the byte is an ASCII decimal digit.
pub open spec fn is_digit(byte: u8) -> bool {
    48 <= byte <= 57
}

/// The number that decimal digits write.
pub open spec fn decimal(digits: Seq<u8>) -> int
    decreases digits.len(),
{
    if digits.len() == 0 {
        0
    } else {
        decimal(digits.drop_last()) * 10 + (digits.last() - 48)
    }
}

/// The digits of a field: what follows an optional plus sign.
pub open spec fn digits_of(field: Seq<u8>) -> Seq<u8> {
    if field.len() > 0 && field[0] == 43u8 {
        field.skip(1)
    } else {
        field
    }
}

/// The number that a field writes, where it writes one that fits.
pub open spec fn number(field: Seq<u8>) -> Option<u32> {
    let digits = digits_of(field);
    if digits.len() > 0 && (forall|i: int| 0 <= i < digits.len() ==> is_digit(#[trigger] digits[i]))
        && decimal(digits) <= u32::MAX {
        Some(decimal(digits) as u32)
    } else {
        None
    }
}

impl TileInfo {
    /// Whether the tile lies in its grid, has a size that fits the display protocol, and has an
    /// offset that fits the coordinates.
    pub open spec fn valid(self) -> bool {
        &&& self.tile_h_loc < self.num_h_tiles
        &&& self.tile_v_loc < self.num_v_tiles
        &&& 0 < self.tile_w <= u16::MAX
        &&& 0 < self.tile_h <= u16::MAX
        &&& self.tile_h_loc * self.tile_w <= u32::MAX
        &&& self.tile_v_loc * self.tile_h <= u32::MAX
    }
}

/// The tile that the fields describe, valid or not.
pub open spec fn tile_of_fields(parts: Seq<Seq<u8>>) -> Option<TileInfo> {
    if parts.len() == 8 && (forall|i: int| 0 <= i < 8 ==> number(#[trigger] parts[i]) is Some) {
        Some(
            TileInfo {
                group_id: number(parts[0])->0,
                single_monitor: number(parts[1])->0 != 0,
                num_h_tiles: number(parts[2])->0,
                num_v_tiles: number(parts[3])->0,
                tile_h_loc: number(parts[4])->0,
                tile_v_loc: number(parts[5])->0,
                tile_w: number(parts[6])->0,
                tile_h: number(parts[7])->0,
            },
        )
    } else {
        None
    }
}

/// The tile that a property blob describes.
pub open spec fn tile_of(blob: Seq<u8>) -> Option<TileInfo> {
    match tile_of_fields(fields(trimmed(blob))) {
        Some(info) => if info.valid() {
            Some(info)
        } else {
            None
        },
        None => None,
    }
}

// ---------------------------------------------------------------------------------------------
// Parsing
// ---------------------------------------------------------------------------------------------

/// How many bytes are left without the NUL bytes at the end.
fn trimmed_len(blob: &[u8]) -> (len: usize)
    ensures
        len <= blob@.len(),
        blob@.take(len as int) == trimmed(blob@),
{
    let mut len: usize = blob.len();
    assert(blob@.take(len as int) =~= blob@);
    while len > 0 && blob[len - 1] == 0
        invariant
            len <= blob@.len(),
            trimmed(blob@.take(len as int)) == trimmed(blob@),
        decreases len,
    {
        assert(blob@.take(len as int).last() == 0);
        assert(blob@.take(len as int).drop_last() =~= blob@.take(len - 1));
        len = len - 1;
    }
    assert(len > 0 ==> blob@.take(len as int).last() == blob@[len - 1]);
    len
}

/// The parts of the first `len` bytes between colons.
fn split_fields(blob: &[u8], len: usize) -> (parts: Vec<Vec<u8>>)
    requires
        len <= blob@.len(),
    ensures
        parts@.len() == fields(blob@.take(len as int)).len(),
        forall|i: int|
            0 <= i < parts@.len() ==> (#[trigger] parts@[i])@ == fields(blob@.take(len as int))[i],
{
    let mut parts: Vec<Vec<u8>> = Vec::new();
    let mut part: Vec<u8> = Vec::new();
    assert(blob@.take(0) =~= Seq::empty());
    for i in 0..len
        invariant
            len <= blob@.len(),
            parts@.len() + 1 == fields(blob@.take(i as int)).len(),
            forall|k: int|
                0 <= k < parts@.len() ==> (#[trigger] parts@[k])@ == fields(
                    blob@.take(i as int),
                )[k],
            part@ == fields(blob@.take(i as int)).last(),
    {
        let ghost before = fields(blob@.take(i as int));
        let byte = blob[i];
        proof {
            assert(blob@.take(i + 1).last() == byte);
            assert(blob@.take(i + 1).drop_last() =~= blob@.take(i as int));
        }
        if byte == 58 {
            parts.push(part);
            part = Vec::new();
            assert(part@ =~= Seq::empty());
        } else {
            part.push(byte);
        }
        proof {
            let after = fields(blob@.take(i + 1));
            assert forall|k: int| 0 <= k < parts@.len() implies (#[trigger] parts@[k])@
                == after[k] by {
                if k < before.len() - 1 {
                    assert(after[k] == before[k]);
                }
            }
        }
    }
    parts.push(part);
    parts
}

/// The number that a field writes.
fn parse_number(field: &Vec<u8>) -> (value: Option<u32>)
    ensures
        value == number(field@),
{
    let start: usize = if field.len() > 0 && field[0] == 43 {
        1
    } else {
        0
    };
    let ghost digits = digits_of(field@);
    assert(digits =~= field@.skip(start as int));
    if start == field.len() {
        return None;
    }
    let mut value: u64 = 0;
    assert(digits.take(0) =~= Seq::empty());
    for i in start..field.len()
        invariant
            start <= 1,
            start < field@.len(),
            digits == field@.skip(start as int),
            digits == digits_of(field@),
            forall|k: int| 0 <= k < i - start ==> is_digit(#[trigger] digits[k]),
            value == decimal(digits.take(i - start)),
            value <= u32::MAX,
    {
        let byte = field[i];
        let ghost at = i - start;
        assert(digits[at] == byte);
        if byte < 48 || byte > 57 {
            assert(!is_digit(digits[at]));
            return None;
        }
        proof {
            assert(digits.take(at + 1).last() == byte);
            assert(digits.take(at + 1).drop_last() =~= digits.take(at));
        }
        value = value * 10 + (byte - 48) as u64;
        if value > 0xffff_ffff {
            proof {
                if forall|k: int| 0 <= k < digits.len() ==> is_digit(#[trigger] digits[k]) {
                    lemma_decimal_grows(digits, at + 1, digits.len() as int);
                    assert(digits.take(digits.len() as int) =~= digits);
                }
            }
            return None;
        }
    }
    assert(digits.take(digits.len() as int) =~= digits);
    Some(value as u32)
}

proof fn lemma_decimal_grows(digits: Seq<u8>, i: int, j: int)
    requires
        0 <= i <= j <= digits.len(),
        forall|k: int| 0 <= k < digits.len() ==> is_digit(#[trigger] digits[k]),
    ensures
        0 <= decimal(digits.take(i)) <= decimal(digits.take(j)),
    decreases j,
{
    if j == 0 {
        assert(digits.take(0) =~= Seq::empty());
    } else {
        assert(digits.take(j).drop_last() =~= digits.take(j - 1));
        assert(is_digit(digits[j - 1]));
        if i < j {
            lemma_decimal_grows(digits, i, j - 1);
        } else {
            lemma_decimal_grows(digits, i - 1, j - 1);
        }
    }
}

impl TileInfo {
    /// Parses the kernel TILE blob, validating positions and using checked arithmetic (sink
    /// data is not trustworthy).
    pub fn parse(blob: &[u8]) -> (info: Option<TileInfo>)
        ensures
            info == tile_of(blob@),
    {
        let len: usize = trimmed_len(blob);
        let parts = split_fields(blob, len);
        let ghost all = fields(trimmed(blob@));
        if parts.len() != 8 {
            return None;
        }
        let mut values: Vec<u32> = Vec::new();
        for i in 0..8
            invariant
                parts@.len() == 8,
                all.len() == 8,
                forall|k: int| 0 <= k < 8 ==> (#[trigger] parts@[k])@ == all[k],
                values@.len() == i,
                forall|k: int| 0 <= k < i ==> number(#[trigger] all[k]) == Some(values@[k]),
                all == fields(trimmed(blob@)),
        {
            match parse_number(&parts[i]) {
                Some(value) => {
                    values.push(value);
                },
                None => {
                    assert(number(all[i as int]) is None);
                    return None;
                },
            }
        }
        let info = TileInfo {
            group_id: values[0],
            single_monitor: values[1] != 0,
            num_h_tiles: values[2],
            num_v_tiles: values[3],
            tile_h_loc: values[4],
            tile_v_loc: values[5],
            tile_w: values[6],
            tile_h: values[7],
        };
        assert(tile_of_fields(all) == Some(info));
        if info.num_h_tiles == 0 || info.num_v_tiles == 0 || info.tile_h_loc >= info.num_h_tiles
            || info.tile_v_loc >= info.num_v_tiles || info.tile_w == 0 || info.tile_h == 0
            || info.tile_w > 65535 || info.tile_h > 65535 {
            return None;
        }
        if info.x_off().is_none() || info.y_off().is_none() {
            return None;
        }
        Some(info)
    }

    /// Horizontal offset of this tile within the full image, in pixels.
    pub fn x_off(&self) -> (offset: Option<u32>)
        ensures
            offset == (if self.tile_h_loc * self.tile_w <= u32::MAX {
                Some((self.tile_h_loc * self.tile_w) as u32)
            } else {
                None
            }),
    {
        self.tile_h_loc.checked_mul(self.tile_w)
    }

    /// Vertical offset of this tile within the full image, in pixels.
    pub fn y_off(&self) -> (offset: Option<u32>)
        ensures
            offset == (if self.tile_v_loc * self.tile_h <= u32::MAX {
                Some((self.tile_v_loc * self.tile_h) as u32)
            } else {
                None
            }),
    {
        self.tile_v_loc.checked_mul(self.tile_h)
    }
}

// ---------------------------------------------------------------------------------------------
// Laws
// ---------------------------------------------------------------------------------------------

/// NUL bytes at the end of a blob do not matter.
pub proof fn law_trailing_nul_is_ignored(blob: Seq<u8>)
    ensures
        tile_of(blob.push(0u8)) == tile_of(blob),
{
    assert(blob.push(0u8).drop_last() =~= blob);
}

/// The parts with colons between them.
pub open spec fn colon_joined(parts: Seq<Seq<u8>>) -> Seq<u8>
    decreases parts.len(),
{
    if parts.len() == 0 {
        Seq::empty()
    } else if parts.len() == 1 {
        parts[0]
    } else {
        colon_joined(parts.drop_last()).push(58u8) + parts.last()
    }
}

proof fn lemma_fields_extended(start: Seq<u8>, part: Seq<u8>)
    requires
        forall|i: int| 0 <= i < part.len() ==> #[trigger] part[i] != 58u8,
        fields(start).len() > 0,
    ensures
        fields(start + part) == fields(start).drop_last().push(fields(start).last() + part),
    decreases part.len(),
{
    if part.len() == 0 {
        assert(start + part =~= start);
        assert(fields(start).last() + part =~= fields(start).last());
    } else {
        lemma_fields_extended(start, part.drop_last());
        assert((start + part).drop_last() =~= start + part.drop_last());
        assert((start + part).last() == part.last());
        let before = fields(start + part.drop_last());
        assert(before.drop_last() =~= fields(start).drop_last());
        assert(before.last().push(part.last()) =~= fields(start).last() + part);
    }
}

proof fn lemma_fields_of_joined(parts: Seq<Seq<u8>>)
    requires
        parts.len() > 0,
        forall|i: int, k: int|
            0 <= i < parts.len() && 0 <= k < parts[i].len() ==> #[trigger] parts[i][k] != 58u8,
    ensures
        fields(colon_joined(parts)) == parts,
    decreases parts.len(),
{
    let none = Seq::<u8>::empty();
    let last = parts.last();
    assert forall|i: int| 0 <= i < last.len() implies #[trigger] last[i] != 58u8 by {
        assert(parts[parts.len() - 1][i] != 58u8);
    }
    if parts.len() == 1 {
        lemma_fields_extended(none, last);
        assert(none + last =~= last);
        assert(fields(none).drop_last().push(fields(none).last() + last) =~= parts);
    } else {
        let rest = parts.drop_last();
        assert forall|i: int, k: int| 0 <= i < rest.len() && 0 <= k < rest[i].len() implies (
        #[trigger] rest[i][k]) != 58u8 by {
            assert(parts[i][k] != 58u8);
        }
        lemma_fields_of_joined(rest);
        let start = colon_joined(rest).push(58u8);
        assert(start.drop_last() =~= colon_joined(rest));
        assert(fields(start) == rest.push(none));
        lemma_fields_extended(start, last);
        assert(none + last =~= last);
        assert(rest.push(none).drop_last().push(none + last) =~= parts);
    }
}

/// Eight numbers written with colons between them are read back as the tile that they describe,
/// where that tile is valid.
pub proof fn law_written_tiles_are_read_back(parts: Seq<Seq<u8>>, info: TileInfo)
    requires
        tile_of_fields(parts) == Some(info),
    ensures
        tile_of(colon_joined(parts)) == (if info.valid() {
            Some(info)
        } else {
            None
        }),
{
    assert forall|i: int, k: int| 0 <= i < parts.len() && 0 <= k < parts[i].len() implies (
    #[trigger] parts[i][k]) != 58u8 by {
        assert(number(parts[i]) is Some);
        let digits = digits_of(parts[i]);
        if parts[i][0] == 43u8 {
            if k > 0 {
                assert(is_digit(digits[k - 1]));
            }
        } else {
            assert(is_digit(digits[k]));
        }
    }
    lemma_fields_of_joined(parts);
    let text = colon_joined(parts);
    assert(number(parts[7]) is Some);
    let digits = digits_of(parts[7]);
    assert(is_digit(digits[digits.len() - 1]));
    assert(parts[7].last() == digits.last());
    assert(text.last() == parts[7].last());
    assert(trimmed(text) == text);
}

/// A tile is described by eight numbers with colons between them: the group, whether the group is one
/// monitor, the numbers of tiles across and down, the place of this tile across and down, and its
/// width and height. It is accepted exactly when its place is inside the grid, its size is positive
/// and fits a mode, and its offsets can be counted.
pub proof fn law_tiles_are_read_number_by_number(parts: Seq<Seq<u8>>, values: Seq<u32>)
    requires
        parts.len() == 8,
        values.len() == 8,
        forall|i: int| 0 <= i < 8 ==> number(#[trigger] parts[i]) == Some(values[i]),
    ensures
        ({
            let read = tile_of(colon_joined(parts));
            let accepted = {
                &&& values[4] < values[2]
                &&& values[5] < values[3]
                &&& 0 < values[6] <= 0xffff
                &&& 0 < values[7] <= 0xffff
                &&& values[4] * values[6] <= u32::MAX
                &&& values[5] * values[7] <= u32::MAX
            };
            &&& read is Some <==> accepted
            &&& read matches Some(info) ==> {
                &&& info.group_id == values[0]
                &&& info.single_monitor <==> values[1] != 0
                &&& info.num_h_tiles == values[2]
                &&& info.num_v_tiles == values[3]
                &&& info.tile_h_loc == values[4]
                &&& info.tile_v_loc == values[5]
                &&& info.tile_w == values[6]
                &&& info.tile_h == values[7]
            }
        }),
{
    assert(number(parts[0]) == Some(values[0]));
    assert(number(parts[1]) == Some(values[1]));
    assert(number(parts[2]) == Some(values[2]));
    assert(number(parts[3]) == Some(values[3]));
    assert(number(parts[4]) == Some(values[4]));
    assert(number(parts[5]) == Some(values[5]));
    assert(number(parts[6]) == Some(values[6]));
    assert(number(parts[7]) == Some(values[7]));
    let info = tile_of_fields(parts)->0;
    law_written_tiles_are_read_back(parts, info);
}

/// A blob with more or fewer than eight numbers, or with a field that is not a number, describes no
/// tile.
pub proof fn law_malformed_tiles_are_refused(parts: Seq<Seq<u8>>, i: int)
    requires
        parts.len() > 0,
        forall|k: int, j: int|
            0 <= k < parts.len() && 0 <= j < parts[k].len() ==> #[trigger] parts[k][j] != 58
                && parts[k][j] != 0,
    ensures
        parts.len() != 8 ==> tile_of(colon_joined(parts)) is None,
        0 <= i < parts.len() && number(parts[i]) is None ==> tile_of(colon_joined(parts)) is None,
{
    lemma_fields_of_joined(parts);
    lemma_joined_ends_without_nul(parts);
}

proof fn lemma_joined_ends_without_nul(parts: Seq<Seq<u8>>)
    requires
        parts.len() > 0,
        forall|k: int, j: int|
            0 <= k < parts.len() && 0 <= j < parts[k].len() ==> #[trigger] parts[k][j] != 58
                && parts[k][j] != 0,
    ensures
        trimmed(colon_joined(parts)) == colon_joined(parts),
{
    if parts.len() > 1 && parts.last().len() > 0 {
        assert(parts[parts.len() - 1][parts.last().len() - 1] != 0);
    } else if parts.len() == 1 && parts[0].len() > 0 {
        assert(parts[0][parts[0].len() - 1] != 0);
    }
}

/// A field is a number exactly when it consists of decimal digits, one at least and with one plus
/// allowed in front; each further digit counts ten times what stands before it and itself, as long
/// as the number fits 32 bits.
pub proof fn law_numbers_are_decimal(field: Seq<u8>, byte: u8)
    ensures
        number(Seq::<u8>::empty()) is None,
        number(seq![43u8]) is None,
        number(seq![byte]) == (if 48 <= byte <= 57 {
            Some((byte - 48) as u32)
        } else {
            None
        }),
        number(field) matches Some(value) ==> {
            &&& 48 <= byte <= 57 && value * 10 + (byte - 48) <= u32::MAX ==> number(
                field.push(byte),
            ) == Some((value * 10 + (byte - 48)) as u32)
            &&& 48 <= byte <= 57 && value * 10 + (byte - 48) > u32::MAX ==> number(field.push(byte))
                is None
            &&& !(48 <= byte <= 57) ==> number(field.push(byte)) is None
        },
        field.len() > 0 && field[0] != 43 ==> number(seq![43u8] + field) == number(field),
{
    assert(decimal(Seq::<u8>::empty()) == 0);
    assert(seq![43u8].skip(1) =~= Seq::<u8>::empty());
    let one = seq![byte];
    assert(one.drop_last() =~= Seq::<u8>::empty());
    assert(decimal(one) == byte - 48) by {
        assert(one.last() == byte);
    }
    if byte != 43 {
        assert(digits_of(one) == one);
        assert(one[0] == byte);
    } else {
        assert(digits_of(one) =~= Seq::<u8>::empty());
    }
    if number(field) is Some {
        let digits = digits_of(field);
        let more = field.push(byte);
        if field[0] == 43u8 {
            assert(more.skip(1) =~= field.skip(1).push(byte));
        }
        assert(more[0] == field[0]);
        assert(digits.take(digits.len() as int) =~= digits);
        lemma_decimal_grows(digits, digits.len() as int, digits.len() as int);
        let now = digits_of(more);
        assert(now =~= digits.push(byte));
        assert(now.drop_last() =~= digits);
        assert(now.last() == byte);
        assert(decimal(now) == decimal(digits) * 10 + (byte - 48));
        if 48 <= byte <= 57 {
            assert forall|i: int| 0 <= i < now.len() implies is_digit(#[trigger] now[i]) by {
                if i < digits.len() {
                    assert(now[i] == digits[i]);
                }
            }
        } else {
            assert(now[digits.len() as int] == byte);
            assert(!is_digit(now[digits.len() as int]));
        }
    }
    if field.len() > 0 && field[0] != 43 {
        assert((seq![43u8] + field).skip(1) =~= field);
    }
}

} // verus!
