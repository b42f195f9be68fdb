//! The two arrays that do not hold their own values.
//!
//! A dictionary array holds keys into a dictionary that arrives separately, and a view array holds
//! views into data buffers. Both are an index into something else. Neither can be carried in a batch
//! yet.
use vstd::prelude::*;
use vstd::string::*;

use crate::bytes::{le, lemma_le_4, u16_of, u32_of, u64_of};
use crate::guard::error::{broken, found, Invariant, Result, Violation, ViolationView};
use crate::guard::schema::{DataType, Kind};
use crate::text::{decimal, decimal_text, signed, signed_text};

verus! {

/// How wide one view is, in bytes: a four byte length, then either twelve bytes of inline data or a
/// four byte prefix, a buffer index and an offset.
pub const VIEW_WIDTH: usize = 16;

/// The longest value that fits inside a view.
pub const VIEW_INLINE: u32 = 12;

/// How wide a dictionary key is in bytes, and whether it is signed.
pub open spec fn key_width(kind: Kind) -> Option<(nat, bool)> {
    match kind {
        Kind::Int8 => Some((1, true)),
        Kind::Int16 => Some((2, true)),
        Kind::Int32 => Some((4, true)),
        Kind::Int64 => Some((8, true)),
        Kind::UInt8 => Some((1, false)),
        Kind::UInt16 => Some((2, false)),
        Kind::UInt32 => Some((4, false)),
        Kind::UInt64 => Some((8, false)),
        _ => None,
    }
}

/// A little-endian number of a width of one, two, four or eight bytes, reinterpreted as signed.
pub open spec fn signed_value(v: nat, width: nat) -> int {
    let half: int = if width == 1 {
        0x80
    } else if width == 2 {
        0x8000
    } else if width == 4 {
        0x8000_0000
    } else {
        0x8000_0000_0000_0000
    };
    if v < half {
        v as int
    } else {
        v - 2 * half
    }
}

/// The key in a slot.
pub open spec fn key_at(keys: Seq<u8>, width: nat, is_signed: bool, slot: int) -> int {
    let v = le(keys.subrange(slot * width, slot * width + width));
    if is_signed {
        signed_value(v, width)
    } else {
        v as int
    }
}

/// What is wrong with the key in a slot.
pub open spec fn key_fault(
    keys: Seq<u8>,
    width: nat,
    is_signed: bool,
    slot: int,
    dictionary_len: u64,
    path: Seq<char>,
) -> Option<ViolationView> {
    let key = key_at(keys, width, is_signed, slot);
    if key < 0 {
        Some(
            broken(
                Invariant::DictionaryIndex,
                path,
                "key "@ + decimal_text(slot as nat) + " is "@ + signed_text(key)
                    + ", and a key is a position"@,
            ),
        )
    } else if key >= dictionary_len {
        Some(
            broken(
                Invariant::DictionaryIndex,
                path,
                "key "@ + decimal_text(slot as nat) + " is "@ + decimal_text(key as nat)
                    + " and the dictionary has "@ + decimal_text(dictionary_len as nat)
                    + " values"@,
            ),
        )
    } else {
        None
    }
}

/// What is wrong with the first bad key of the first `n` slots.
pub open spec fn keys_fault(
    keys: Seq<u8>,
    width: nat,
    is_signed: bool,
    n: nat,
    dictionary_len: u64,
    path: Seq<char>,
) -> Option<ViolationView>
    decreases n,
{
    if n == 0 {
        None
    } else {
        match keys_fault(keys, width, is_signed, (n - 1) as nat, dictionary_len, path) {
            Some(e) => Some(e),
            None => key_fault(keys, width, is_signed, n - 1, dictionary_len, path),
        }
    }
}

/// Whether a count of things of a width can be held, and if not why.
pub open spec fn extent_fault(
    have: nat,
    len: u64,
    width: nat,
    what: Seq<char>,
    path: Seq<char>,
) -> Option<ViolationView> {
    if len > usize::MAX {
        Some(
            broken(
                Invariant::Size,
                path,
                decimal_text(len as nat) + what + " is more than this host can address"@,
            ),
        )
    } else if len * width > usize::MAX {
        Some(
            broken(
                Invariant::Size,
                path,
                decimal_text(len as nat) + what + " of "@ + decimal_text(width)
                    + " bytes is more than this host can address"@,
            ),
        )
    } else if have < len * width {
        Some(
            broken(
                Invariant::BufferLength,
                path,
                decimal_text(len as nat) + what + " need "@ + decimal_text((len * width) as nat)
                    + " bytes and there are "@ + decimal_text(have),
            ),
        )
    } else {
        None
    }
}

/// What is wrong with dictionary keys.
pub open spec fn dictionary_fault(
    keys: Seq<u8>,
    key_type: DataType,
    len: u64,
    dictionary_len: u64,
    path: Seq<char>,
) -> Option<ViolationView> {
    match key_width(key_type.kind) {
        None => Some(
            broken(
                Invariant::Unsupported,
                path,
                key_type.printed@ + " is not an integer, so it cannot be a dictionary key"@,
            ),
        ),
        Some((width, is_signed)) => match extent_fault(keys.len(), len, width, " keys"@, path) {
            Some(e) => Some(e),
            None => keys_fault(keys, width, is_signed, len as nat, dictionary_len, path),
        },
    }
}

/// Checks that a count of things of a width can be held in some bytes.
fn check_extent(have: usize, len: u64, width: usize, what: &'static str, path: &str) -> (r: Result<
    usize,
>)
    requires
        0 < width <= 16,
    ensures
        match extent_fault(have as nat, len, width as nat, what@, path@) {
            Some(e) => r is Err && r->Err_0@ == e,
            None => r is Ok && r->Ok_0 == len && len * width <= have,
        },
{
    if len > usize::MAX as u64 {
        let mut s = decimal(len);
        s.append(what);
        s.append(" is more than this host can address");
        return Err(Violation::at(Invariant::Size, path, s));
    }
    let slots: usize = len as usize;
    if slots > usize::MAX / width {
        assert(slots * width > usize::MAX) by (nonlinear_arith)
            requires
                width > 0,
                slots > usize::MAX / width,
        ;
        let mut s = decimal(len);
        s.append(what);
        s.append(" of ");
        s.append(decimal(width as u64).as_str());
        s.append(" bytes is more than this host can address");
        return Err(Violation::at(Invariant::Size, path, s));
    }
    assert(slots * width <= usize::MAX) by (nonlinear_arith)
        requires
            width > 0,
            slots <= usize::MAX / width,
    ;
    let needed: usize = slots * width;
    if have < needed {
        let mut s = decimal(len);
        s.append(what);
        s.append(" need ");
        s.append(decimal(needed as u64).as_str());
        s.append(" bytes and there are ");
        s.append(decimal(have as u64).as_str());
        return Err(Violation::at(Invariant::BufferLength, path, s));
    }
    Ok(slots)
}

/// Reads a number of one, two, four or eight bytes.
fn read_unsigned(raw: &[u8]) -> (r: u64)
    requires
        raw@.len() == 1 || raw@.len() == 2 || raw@.len() == 4 || raw@.len() == 8,
    ensures
        r == le(raw@),
        raw@.len() == 1 ==> r < 0x100,
        raw@.len() == 2 ==> r < 0x1_0000,
        raw@.len() == 4 ==> r < 0x1_0000_0000,
{
    let n: usize = raw.len();
    if n == 1 {
        proof {
            reveal_with_fuel(le, 2);
            assert(raw@.drop_first().len() == 0);
        }
        raw[0] as u64
    } else if n == 2 {
        u16_of(raw) as u64
    } else if n == 4 {
        u32_of(raw) as u64
    } else {
        u64_of(raw)
    }
}

/// Reads a signed number of one, two, four or eight bytes.
pub(crate) fn read_signed(raw: &[u8]) -> (r: i64)
    requires
        raw@.len() == 1 || raw@.len() == 2 || raw@.len() == 4 || raw@.len() == 8,
    ensures
        r == signed_value(le(raw@), raw@.len()),
{
    let v: u64 = read_unsigned(raw);
    let n: usize = raw.len();
    if n == 1 {
        if v < 0x80 {
            v as i64
        } else {
            v as i64 - 0x100
        }
    } else if n == 2 {
        if v < 0x8000 {
            v as i64
        } else {
            v as i64 - 0x1_0000
        }
    } else if n == 4 {
        if v < 0x8000_0000 {
            v as i64
        } else {
            v as i64 - 0x1_0000_0000
        }
    } else if v < 0x8000_0000_0000_0000 {
        v as i64
    } else {
        let below: u64 = 0xFFFF_FFFF_FFFF_FFFF - v;
        -1 - below as i64
    }
}

/// A fault early on is the fault of the whole run.
proof fn lemma_keys_fault_stays(
    keys: Seq<u8>,
    width: nat,
    is_signed: bool,
    k: nat,
    n: nat,
    dictionary_len: u64,
    path: Seq<char>,
)
    requires
        k <= n,
        keys_fault(keys, width, is_signed, k, dictionary_len, path) is Some,
    ensures
        keys_fault(keys, width, is_signed, n, dictionary_len, path) == keys_fault(
            keys,
            width,
            is_signed,
            k,
            dictionary_len,
            path,
        ),
    decreases n,
{
    if k < n {
        lemma_keys_fault_stays(keys, width, is_signed, k, (n - 1) as nat, dictionary_len, path);
    }
}

/// Checks that every key is a slot in the dictionary.
///
/// A key equal to the dictionary's length is one past its end, and is what an off by one in a decoder
/// produces.
pub fn check_dictionary(
    keys: &[u8],
    key_type: &DataType,
    len: u64,
    dictionary_len: u64,
    path: &str,
) -> (r: Result<()>)
    ensures
        found(r, dictionary_fault(keys@, *key_type, len, dictionary_len, path@)),
{
    let (width, is_signed): (usize, bool) = match key_type.kind {
        Kind::Int8 => (1, true),
        Kind::Int16 => (2, true),
        Kind::Int32 => (4, true),
        Kind::Int64 => (8, true),
        Kind::UInt8 => (1, false),
        Kind::UInt16 => (2, false),
        Kind::UInt32 => (4, false),
        Kind::UInt64 => (8, false),
        _ => {
            let mut s = key_type.printed.as_str().to_owned();
            s.append(" is not an integer, so it cannot be a dictionary key");
            return Err(Violation::at(Invariant::Unsupported, path, s));
        },
    };
    let slots: usize = check_extent(keys.len(), len, width, " keys", path)?;
    let mut slot: usize = 0;
    while slot < slots
        invariant
            0 <= slot <= slots,
            slots == len,
            width == 1 || width == 2 || width == 4 || width == 8,
            key_width(key_type.kind) == Some((width as nat, is_signed)),
            extent_fault(keys@.len(), len, width as nat, " keys"@, path@) is None,
            keys_fault(keys@, width as nat, is_signed, slot as nat, dictionary_len, path@) is None,
        decreases slots - slot,
    {
        assert(slot * width + width <= slots * width) by (nonlinear_arith)
            requires
                slot < slots,
        ;
        proof {
            if keys_fault(
                keys@,
                width as nat,
                is_signed,
                (slot + 1) as nat,
                dictionary_len,
                path@,
            ) is Some {
                lemma_keys_fault_stays(
                    keys@,
                    width as nat,
                    is_signed,
                    (slot + 1) as nat,
                    slots as nat,
                    dictionary_len,
                    path@,
                );
            }
        }
        let at: usize = slot * width;
        let raw = &keys[at..at + width];
        if is_signed {
            let value: i64 = read_signed(raw);
            if value < 0 {
                let mut s = "key ".to_owned();
                s.append(decimal(slot as u64).as_str());
                s.append(" is ");
                s.append(signed(value).as_str());
                s.append(", and a key is a position");
                return Err(Violation::at(Invariant::DictionaryIndex, path, s));
            }
        }
        let key: u64 = read_unsigned(raw);
        if key >= dictionary_len {
            let mut s = "key ".to_owned();
            s.append(decimal(slot as u64).as_str());
            s.append(" is ");
            s.append(decimal(key).as_str());
            s.append(" and the dictionary has ");
            s.append(decimal(dictionary_len).as_str());
            s.append(" values");
            return Err(Violation::at(Invariant::DictionaryIndex, path, s));
        }
        slot = slot + 1;
    }
    Ok(())
}

/// Keys that pass are all slots in the dictionary.
pub proof fn lemma_keys_are_slots(
    keys: Seq<u8>,
    key_type: DataType,
    len: u64,
    dictionary_len: u64,
    path: Seq<char>,
    slot: int,
)
    requires
        dictionary_fault(keys, key_type, len, dictionary_len, path) is None,
        0 <= slot < len,
    ensures
        key_width(key_type.kind) is Some,
        ({
            let (width, is_signed) = key_width(key_type.kind)->Some_0;
            &&& (slot + 1) * width <= keys.len()
            &&& 0 <= key_at(keys, width, is_signed, slot) < dictionary_len
        }),
{
    let (width, is_signed) = key_width(key_type.kind)->Some_0;
    assert((slot + 1) * width <= len * width) by (nonlinear_arith)
        requires
            slot < len,
    ;
    lemma_no_key_fault(keys, width, is_signed, len as nat, dictionary_len, path, slot);
}

/// With no fault in a run there is none in a slot of it.
proof fn lemma_no_key_fault(
    keys: Seq<u8>,
    width: nat,
    is_signed: bool,
    n: nat,
    dictionary_len: u64,
    path: Seq<char>,
    slot: int,
)
    requires
        keys_fault(keys, width, is_signed, n, dictionary_len, path) is None,
        0 <= slot < n,
    ensures
        key_fault(keys, width, is_signed, slot, dictionary_len, path) is None,
    decreases n,
{
    if slot < n - 1 {
        lemma_no_key_fault(keys, width, is_signed, (n - 1) as nat, dictionary_len, path, slot);
    }
}

/// The length, the buffer index and the offset of a view.
pub open spec fn view_at(views: Seq<u8>, slot: int) -> (u32, u32, u32) {
    let v = views.subrange(16 * slot, 16 * slot + 16);
    (
        le(v.subrange(0, 4)) as u32,
        le(v.subrange(8, 12)) as u32,
        le(v.subrange(12, 16)) as u32,
    )
}

/// What is wrong with the view in a slot. A short value lives in the view and points at nothing.
pub open spec fn view_fault(
    views: Seq<u8>,
    data: Seq<Seq<u8>>,
    slot: int,
    path: Seq<char>,
) -> Option<ViolationView> {
    let (length, index, offset) = view_at(views, slot);
    if length <= VIEW_INLINE {
        None
    } else if index >= data.len() {
        Some(
            broken(
                Invariant::ViewBuffer,
                path,
                "view "@ + decimal_text(slot as nat) + " points at data buffer "@ + decimal_text(
                    index as nat,
                ) + " and there are "@ + decimal_text(data.len()),
            ),
        )
    } else if offset + length > data[index as int].len() {
        Some(
            broken(
                Invariant::ViewBuffer,
                path,
                "view "@ + decimal_text(slot as nat) + " reads "@ + decimal_text(length as nat)
                    + " bytes at "@ + decimal_text(offset as nat) + " of data buffer "@
                    + decimal_text(index as nat) + ", which is "@ + decimal_text(
                    data[index as int].len(),
                ) + " bytes"@,
            ),
        )
    } else {
        None
    }
}

/// What is wrong with the first bad view of the first `n` slots.
pub open spec fn slots_fault(views: Seq<u8>, data: Seq<Seq<u8>>, n: nat, path: Seq<char>) -> Option<
    ViolationView,
>
    decreases n,
{
    if n == 0 {
        None
    } else {
        match slots_fault(views, data, (n - 1) as nat, path) {
            Some(e) => Some(e),
            None => view_fault(views, data, n - 1, path),
        }
    }
}

/// What is wrong with views.
pub open spec fn views_fault(views: Seq<u8>, data: Seq<Seq<u8>>, len: u64, path: Seq<char>) -> Option<
    ViolationView,
> {
    match extent_fault(views.len(), len, VIEW_WIDTH as nat, " views"@, path) {
        Some(e) => Some(e),
        None => if views.len() % VIEW_WIDTH as nat != 0 {
            Some(ragged(views.len(), path))
        } else {
            slots_fault(views, data, len as nat, path)
        },
    }
}

/// What is said of views that do not end where a view ends.
pub open spec fn ragged(have: nat, path: Seq<char>) -> ViolationView {
    broken(
        Invariant::BufferLength,
        path,
        decimal_text(have) + " bytes are not a whole number of "@ + decimal_text(VIEW_WIDTH as nat)
            + " byte views"@,
    )
}

/// A fault early on is the fault of the whole run.
proof fn lemma_slots_fault_stays(
    views: Seq<u8>,
    data: Seq<Seq<u8>>,
    k: nat,
    n: nat,
    path: Seq<char>,
)
    requires
        k <= n,
        slots_fault(views, data, k, path) is Some,
    ensures
        slots_fault(views, data, n, path) == slots_fault(views, data, k, path),
    decreases n,
{
    if k < n {
        lemma_slots_fault_stays(views, data, k, (n - 1) as nat, path);
    }
}

/// Buffers, taken for what they hold.
pub open spec fn held(buffers: Seq<Vec<u8>>) -> Seq<Seq<u8>> {
    Seq::new(buffers.len(), |i: int| buffers[i]@)
}

/// Checks that every view points inside a data buffer that is actually there.
///
/// A view that points at a buffer that is not there, or past the end of one that is, breaks
/// [`Invariant::ViewBuffer`]. A views buffer that is short or is not a whole number of views breaks
/// [`Invariant::BufferLength`].
pub fn check_views(views: &[u8], data: &[Vec<u8>], len: u64, path: &str) -> (r: Result<()>)
    ensures
        found(r, views_fault(views@, held(data@), len, path@)),
{
    let slots: usize = check_extent(views.len(), len, VIEW_WIDTH, " views", path)?;
    let total: usize = views.len();
    if total % VIEW_WIDTH != 0 {
        let mut s = decimal(total as u64);
        s.append(" bytes are not a whole number of ");
        s.append(decimal(VIEW_WIDTH as u64).as_str());
        s.append(" byte views");
        return Err(Violation::at(Invariant::BufferLength, path, s));
    }
    let ghost all = held(data@);
    let mut slot: usize = 0;
    while slot < slots
        invariant
            0 <= slot <= slots,
            slots == len,
            total == views@.len(),
            slots * 16 <= total,
            all == held(data@),
            extent_fault(views@.len(), len, 16, " views"@, path@) is None,
            views@.len() % 16 == 0,
            slots_fault(views@, all, slot as nat, path@) is None,
        decreases slots - slot,
    {
        proof {
            if slots_fault(views@, all, (slot + 1) as nat, path@) is Some {
                lemma_slots_fault_stays(views@, all, (slot + 1) as nat, slots as nat, path@);
            }
        }
        let view = &views[16 * slot..16 * slot + 16];
        let length: u32 = u32_of(&view[0..4]);
        let index: u32 = u32_of(&view[8..12]);
        let offset: u32 = u32_of(&view[12..16]);
        proof {
            lemma_le_4(view@.subrange(0, 4));
            lemma_le_4(view@.subrange(8, 12));
            lemma_le_4(view@.subrange(12, 16));
        }
        assert(view_at(views@, slot as int) == (length, index, offset));
        if length > VIEW_INLINE {
            if index as usize >= data.len() {
                let mut s = "view ".to_owned();
                s.append(decimal(slot as u64).as_str());
                s.append(" points at data buffer ");
                s.append(decimal(index as u64).as_str());
                s.append(" and there are ");
                s.append(decimal(data.len() as u64).as_str());
                return Err(Violation::at(Invariant::ViewBuffer, path, s));
            }
            let have: usize = data[index as usize].len();
            assert(all[index as int].len() == have);
            if offset as u64 + length as u64 > have as u64 {
                let mut s = "view ".to_owned();
                s.append(decimal(slot as u64).as_str());
                s.append(" reads ");
                s.append(decimal(length as u64).as_str());
                s.append(" bytes at ");
                s.append(decimal(offset as u64).as_str());
                s.append(" of data buffer ");
                s.append(decimal(index as u64).as_str());
                s.append(", which is ");
                s.append(decimal(have as u64).as_str());
                s.append(" bytes");
                return Err(Violation::at(Invariant::ViewBuffer, path, s));
            }
        }
        slot = slot + 1;
    }
    Ok(())
}

/// Views that pass each hold their value inline or point inside a data buffer.
pub proof fn lemma_views_point_inside(
    views: Seq<u8>,
    data: Seq<Seq<u8>>,
    len: u64,
    path: Seq<char>,
    slot: int,
)
    requires
        views_fault(views, data, len, path) is None,
        0 <= slot < len,
    ensures
        16 * (slot + 1) <= views.len(),
        ({
            let (length, index, offset) = view_at(views, slot);
            length <= VIEW_INLINE || (index < data.len() && offset + length
                <= data[index as int].len())
        }),
{
    lemma_no_view_fault(views, data, len as nat, path, slot);
}

/// With no fault in a run there is none in a slot of it.
proof fn lemma_no_view_fault(
    views: Seq<u8>,
    data: Seq<Seq<u8>>,
    n: nat,
    path: Seq<char>,
    slot: int,
)
    requires
        slots_fault(views, data, n, path) is None,
        0 <= slot < n,
    ensures
        view_fault(views, data, slot, path) is None,
    decreases n,
{
    if slot < n - 1 {
        lemma_no_view_fault(views, data, (n - 1) as nat, path, slot);
    }
}

} // verus!
