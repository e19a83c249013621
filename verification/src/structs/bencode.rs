//! Bencode values and their wire form.

use crate::structs::decimal::{
    digits, is_digit, lemma_digits, lemma_number_at, lemma_number_read, number_at, read_number,
    write_number,
};
use vstd::prelude::*;

verus! {

/// How deep lists and dictionaries may stand in one another in a value
/// that is read from bytes.
pub const MAX_DEPTH: usize = 32;

/// A bencode value.
#[derive(Debug)]
pub enum Bencode {
    Bytes(Vec<u8>),
    Int(i64),
    List(Vec<Bencode>),
    Dict(Vec<(Vec<u8>, Bencode)>),
}

/// A bencode value, as plain values.
pub enum BencodeView {
    Bytes(Seq<u8>),
    Int(int),
    List(Seq<BencodeView>),
    Dict(Seq<(Seq<u8>, BencodeView)>),
}

impl View for Bencode {
    type V = BencodeView;

    open spec fn view(&self) -> BencodeView
        decreases self,
    {
        match self {
            Bencode::Bytes(bytes) => BencodeView::Bytes(bytes@),
            Bencode::Int(value) => BencodeView::Int(*value as int),
            Bencode::List(items) => BencodeView::List(item_views(items@)),
            Bencode::Dict(entries) => BencodeView::Dict(entry_views(entries@)),
        }
    }
}

/// The items of a list, as plain values.
pub open spec fn item_views(items: Seq<Bencode>) -> Seq<BencodeView>
    decreases items,
{
    if items.len() == 0 {
        Seq::empty()
    } else {
        item_views(items.subrange(0, items.len() - 1)).push(items[items.len() - 1]@)
    }
}

/// The entries of a dictionary, as plain values.
pub open spec fn entry_views(entries: Seq<(Vec<u8>, Bencode)>) -> Seq<(Seq<u8>, BencodeView)>
    decreases entries,
{
    if entries.len() == 0 {
        Seq::empty()
    } else {
        entry_views(entries.subrange(0, entries.len() - 1)).push(
            (entries[entries.len() - 1].0@, entries[entries.len() - 1].1@),
        )
    }
}

/// The views of the items stand where the items stand.
pub proof fn lemma_item_views(items: Seq<Bencode>)
    ensures
        item_views(items).len() == items.len(),
        forall|k: int| 0 <= k < items.len() ==> #[trigger] item_views(items)[k] == items[k]@,
    decreases items.len(),
{
    if items.len() > 0 {
        lemma_item_views(items.subrange(0, items.len() - 1));
        assert(item_views(items) == item_views(items.subrange(0, items.len() - 1)).push(items[items.len() - 1]@));
    } else {
        assert(item_views(items) == Seq::<BencodeView>::empty());
    }
}

/// The views of the entries stand where the entries stand.
pub proof fn lemma_entry_views(entries: Seq<(Vec<u8>, Bencode)>)
    ensures
        entry_views(entries).len() == entries.len(),
        forall|k: int|
            0 <= k < entries.len() ==> #[trigger] entry_views(entries)[k] == (
                entries[k].0@,
                entries[k].1@,
            ),
    decreases entries.len(),
{
    if entries.len() > 0 {
        lemma_entry_views(entries.subrange(0, entries.len() - 1));
        assert(entry_views(entries) == entry_views(entries.subrange(0, entries.len() - 1)).push(
            (entries[entries.len() - 1].0@, entries[entries.len() - 1].1@),
        ));
    } else {
        assert(entry_views(entries) == Seq::<(Seq<u8>, BencodeView)>::empty());
    }
}

/// The byte `-`, which stands before the digits of a negative integer.
pub const MINUS: u8 = 45;

/// The byte `:`, which parts the length of a byte string from its bytes.
pub const COLON: u8 = 58;

/// The byte `i`, which opens an integer.
pub const INT_START: u8 = 105;

/// The byte `l`, which opens a list.
pub const LIST_START: u8 = 108;

/// The byte `d`, which opens a dictionary.
pub const DICT_START: u8 = 100;

/// The byte `e`, which closes an integer, a list or a dictionary.
pub const END: u8 = 101;

/// The wire form of a byte string: its length, a colon, the bytes.
pub open spec fn byte_string(bytes: Seq<u8>) -> Seq<u8> {
    digits(bytes.len()) + seq![COLON] + bytes
}

/// The wire form of an integer: its digits between `i` and `e`, behind a
/// minus sign where it is negative.
pub open spec fn integer(value: int) -> Seq<u8> {
    if value < 0 {
        seq![INT_START, MINUS] + digits((-value) as nat) + seq![END]
    } else {
        seq![INT_START] + digits(value as nat) + seq![END]
    }
}

/// The wire form of a value.
pub open spec fn encoding(value: BencodeView) -> Seq<u8>
    decreases value,
{
    match value {
        BencodeView::Bytes(bytes) => byte_string(bytes),
        BencodeView::Int(value) => integer(value),
        BencodeView::List(items) => seq![LIST_START] + encoding_items(items) + seq![END],
        BencodeView::Dict(entries) => seq![DICT_START] + encoding_entries(entries) + seq![END],
    }
}

/// The wire forms of the items of a list, one behind the other.
pub open spec fn encoding_items(items: Seq<BencodeView>) -> Seq<u8>
    decreases items,
{
    if items.len() == 0 {
        Seq::empty()
    } else {
        encoding(items[0]) + encoding_items(items.subrange(1, items.len() as int))
    }
}

/// The wire forms of the entries of a dictionary, one behind the other:
/// of each the key, as a byte string, and then the value.
pub open spec fn encoding_entries(entries: Seq<(Seq<u8>, BencodeView)>) -> Seq<u8>
    decreases entries,
{
    if entries.len() == 0 {
        Seq::empty()
    } else {
        byte_string(entries[0].0) + encoding(entries[0].1) + encoding_entries(
            entries.subrange(1, entries.len() as int),
        )
    }
}

/// The items of a list are written one behind the other.
pub proof fn lemma_encoding_items_push(items: Seq<BencodeView>, last: BencodeView)
    ensures
        encoding_items(items.push(last)) == encoding_items(items) + encoding(last),
    decreases items.len(),
{
    let all = items.push(last);
    if items.len() == 0 {
        assert(all.subrange(1, all.len() as int) =~= Seq::<BencodeView>::empty());
        assert(encoding_items(all.subrange(1, all.len() as int)) =~= Seq::<u8>::empty());
        assert(encoding_items(all) =~= encoding(last));
        assert(encoding_items(items) + encoding(last) =~= encoding(last));
    } else {
        let rest = items.subrange(1, items.len() as int);
        lemma_encoding_items_push(rest, last);
        assert(all.subrange(1, all.len() as int) =~= rest.push(last));
        assert(encoding_items(all) =~= encoding_items(items) + encoding(last));
    }
}

/// The entries of a dictionary are written one behind the other.
pub proof fn lemma_encoding_entries_push(
    entries: Seq<(Seq<u8>, BencodeView)>,
    last: (Seq<u8>, BencodeView),
)
    ensures
        encoding_entries(entries.push(last)) == encoding_entries(entries) + byte_string(last.0)
            + encoding(last.1),
    decreases entries.len(),
{
    let all = entries.push(last);
    if entries.len() == 0 {
        assert(all.subrange(1, all.len() as int) =~= Seq::<(Seq<u8>, BencodeView)>::empty());
        assert(encoding_entries(all.subrange(1, all.len() as int)) =~= Seq::<u8>::empty());
        assert(encoding_entries(all) =~= byte_string(last.0) + encoding(last.1));
        assert(encoding_entries(entries) + byte_string(last.0) + encoding(last.1) =~= byte_string(
            last.0,
        ) + encoding(last.1));
    } else {
        let rest = entries.subrange(1, entries.len() as int);
        lemma_encoding_entries_push(rest, last);
        assert(all.subrange(1, all.len() as int) =~= rest.push(last));
        assert(encoding_entries(all) =~= encoding_entries(entries) + byte_string(last.0)
            + encoding(last.1));
    }
}

/// Appends the bytes of a slice.
fn write_bytes(bytes: &[u8], out: &mut Vec<u8>)
    ensures
        final(out)@ == old(out)@ + bytes@,
{
    let mut k: usize = 0;
    while k < bytes.len()
        invariant
            k <= bytes@.len(),
            out@ == old(out)@ + bytes@.take(k as int),
        decreases bytes@.len() - k,
    {
        out.push(bytes[k]);
        assert(out@ =~= old(out)@ + bytes@.take(k + 1));
        k += 1;
    }
    assert(bytes@.take(k as int) =~= bytes@);
}

/// Appends the wire form of a byte string.
fn write_byte_string(bytes: &[u8], out: &mut Vec<u8>)
    ensures
        final(out)@ == old(out)@ + byte_string(bytes@),
{
    write_number(bytes.len() as u64, out);
    out.push(COLON);
    write_bytes(bytes, out);
    assert(out@ =~= old(out)@ + byte_string(bytes@));
}

/// Appends the wire form of an integer.
fn write_integer(value: i64, out: &mut Vec<u8>)
    ensures
        final(out)@ == old(out)@ + integer(value as int),
{
    out.push(INT_START);
    if value < 0 {
        out.push(MINUS);
        let magnitude: u64 = (-(value + 1)) as u64 + 1;
        write_number(magnitude, out);
    } else {
        write_number(value as u64, out);
    }
    out.push(END);
    assert(out@ =~= old(out)@ + integer(value as int));
}

impl Bencode {
    /// Appends the wire form of the value.
    pub fn encode_into(&self, out: &mut Vec<u8>)
        ensures
            final(out)@ == old(out)@ + encoding(self@),
        decreases self,
    {
        match self {
            Bencode::Bytes(bytes) => {
                write_byte_string(bytes.as_slice(), out);
            },
            Bencode::Int(value) => {
                write_integer(*value, out);
            },
            Bencode::List(items) => {
                out.push(LIST_START);
                let ghost views = self@->List_0;
                proof {
                    lemma_item_views(items@);
                }
                let mut k: usize = 0;
                while k < items.len()
                    invariant
                        k <= items@.len(),
                        *self == Bencode::List(*items),
                        views.len() == items@.len(),
                        forall|j: int| 0 <= j < items@.len() ==> #[trigger] views[j] == items@[j]@,
                        out@ == old(out)@ + seq![LIST_START] + encoding_items(views.take(k as int)),
                    decreases items@.len() - k,
                {
                    proof {
                        lemma_encoding_items_push(views.take(k as int), views[k as int]);
                        assert(views.take(k + 1) =~= views.take(k as int).push(views[k as int]));
                    }
                    assert(decreases_to!(*self => self->List_0));
                    assert(decreases_to!(*items => items[k as int]));
                    items[k].encode_into(out);
                    assert(out@ =~= old(out)@ + seq![LIST_START] + encoding_items(views.take(k + 1)));
                    k += 1;
                }
                assert(views.take(k as int) =~= views);
                out.push(END);
                assert(out@ =~= old(out)@ + encoding(self@));
            },
            Bencode::Dict(entries) => {
                out.push(DICT_START);
                let ghost views = self@->Dict_0;
                proof {
                    lemma_entry_views(entries@);
                }
                let mut k: usize = 0;
                while k < entries.len()
                    invariant
                        k <= entries@.len(),
                        *self == Bencode::Dict(*entries),
                        views.len() == entries@.len(),
                        forall|j: int|
                            0 <= j < entries@.len() ==> #[trigger] views[j] == (
                                entries@[j].0@,
                                entries@[j].1@,
                            ),
                        out@ == old(out)@ + seq![DICT_START] + encoding_entries(
                            views.take(k as int),
                        ),
                    decreases entries@.len() - k,
                {
                    proof {
                        lemma_encoding_entries_push(views.take(k as int), views[k as int]);
                        assert(views.take(k + 1) =~= views.take(k as int).push(views[k as int]));
                    }
                    write_byte_string(entries[k].0.as_slice(), out);
                    assert(decreases_to!(*self => self->Dict_0));
                    assert(decreases_to!(*entries => entries[k as int]));
                    entries[k].1.encode_into(out);
                    assert(out@ =~= old(out)@ + seq![DICT_START] + encoding_entries(
                        views.take(k + 1),
                    ));
                    k += 1;
                }
                assert(views.take(k as int) =~= views);
                out.push(END);
                assert(out@ =~= old(out)@ + encoding(self@));
            },
        }
    }

    /// The wire form of the value.
    pub fn encode(&self) -> (bytes: Vec<u8>)
        ensures
            bytes@ == encoding(self@),
    {
        let mut bytes: Vec<u8> = Vec::new();
        self.encode_into(&mut bytes);
        assert(bytes@ =~= encoding(self@));
        bytes
    }
}

/// The byte string that a sequence starts with, and the length of its
/// wire form.
pub open spec fn byte_string_at(s: Seq<u8>) -> Option<(Seq<u8>, int)> {
    match number_at(s) {
        Some((len, n)) => if n < s.len() && s[n] == COLON && n + 1 + len <= s.len() {
            Some((s.subrange(n + 1, n + 1 + len), n + 1 + len))
        } else {
            None
        },
        None => None,
    }
}

/// The integer that a sequence starts with, and the length of its wire
/// form. An integer fits in 64 bits, and zero has no sign.
pub open spec fn integer_at(s: Seq<u8>) -> Option<(int, int)> {
    if s.len() == 0 || s[0] != INT_START {
        None
    } else {
        let negative = s.len() > 1 && s[1] == MINUS;
        let start: int = if negative {
            2
        } else {
            1
        };
        match number_at(s.skip(start)) {
            Some((magnitude, n)) => if start + n < s.len() && s[start + n] == END && (if negative {
                0 < magnitude <= 0x8000_0000_0000_0000
            } else {
                magnitude <= 0x7fff_ffff_ffff_ffff
            }) {
                Some(
                    (
                        if negative {
                            -(magnitude as int)
                        } else {
                            magnitude as int
                        },
                        start + n + 1,
                    ),
                )
            } else {
                None
            },
            None => None,
        }
    }
}

/// Whether `a` stands before `b` in the order of byte strings: byte by
/// byte, and a string before those that continue it.
pub open spec fn lex_less(a: Seq<u8>, b: Seq<u8>) -> bool
    decreases a.len(),
{
    if b.len() == 0 {
        false
    } else if a.len() == 0 {
        true
    } else if a[0] != b[0] {
        a[0] < b[0]
    } else {
        lex_less(a.skip(1), b.skip(1))
    }
}

/// Whether a key may follow the key before it, where there is one.
pub open spec fn follows(floor: Option<Seq<u8>>, key: Seq<u8>) -> bool {
    match floor {
        Some(floor) => lex_less(floor, key),
        None => true,
    }
}

/// The value that a sequence starts with, and the length of its wire
/// form. Lists and dictionaries may stand `depth` deep in one another.
pub open spec fn value_at(s: Seq<u8>, depth: nat) -> Option<(BencodeView, int)>
    decreases s.len(), 0nat,
{
    if s.len() == 0 {
        None
    } else if s[0] == INT_START {
        match integer_at(s) {
            Some((value, n)) => Some((BencodeView::Int(value), n)),
            None => None,
        }
    } else if s[0] == LIST_START {
        if depth == 0 {
            None
        } else {
            match items_at(s.skip(1), (depth - 1) as nat) {
                Some((items, n)) => Some((BencodeView::List(items), n + 1)),
                None => None,
            }
        }
    } else if s[0] == DICT_START {
        if depth == 0 {
            None
        } else {
            match entries_at(s.skip(1), (depth - 1) as nat, None) {
                Some((entries, n)) => Some((BencodeView::Dict(entries), n + 1)),
                None => None,
            }
        }
    } else {
        match byte_string_at(s) {
            Some((bytes, n)) => Some((BencodeView::Bytes(bytes), n)),
            None => None,
        }
    }
}

/// The items that a sequence starts with, up to the byte that closes
/// their list, and the length of their wire form with that byte.
pub open spec fn items_at(s: Seq<u8>, depth: nat) -> Option<(Seq<BencodeView>, int)>
    decreases s.len(), 1nat,
{
    if s.len() == 0 {
        None
    } else if s[0] == END {
        Some((Seq::empty(), 1))
    } else {
        match value_at(s, depth) {
            Some((first, n)) => if 0 < n <= s.len() {
                match items_at(s.skip(n), depth) {
                    Some((rest, m)) => Some((seq![first] + rest, n + m)),
                    None => None,
                }
            } else {
                None
            },
            None => None,
        }
    }
}

/// The entries that a sequence starts with, up to the byte that closes
/// their dictionary, and the length of their wire form with that byte.
/// The keys rise strictly, the first above `floor`.
pub open spec fn entries_at(s: Seq<u8>, depth: nat, floor: Option<Seq<u8>>) -> Option<
    (Seq<(Seq<u8>, BencodeView)>, int),
>
    decreases s.len(), 1nat,
{
    if s.len() == 0 {
        None
    } else if s[0] == END {
        Some((Seq::empty(), 1))
    } else {
        match byte_string_at(s) {
            Some((key, n)) => if follows(floor, key) && 0 < n <= s.len() {
                match value_at(s.skip(n), depth) {
                    Some((value, m)) => if 0 < m <= s.len() - n {
                        match entries_at(s.skip(n + m), depth, Some(key)) {
                            Some((rest, r)) => Some((seq![(key, value)] + rest, n + m + r)),
                            None => None,
                        }
                    } else {
                        None
                    },
                    None => None,
                }
            } else {
                None
            },
            None => None,
        }
    }
}

/// The value that the bytes are the wire form of, where they are one:
/// of a value whose lists and dictionaries stand at most `MAX_DEPTH` deep.
pub open spec fn decoding(bytes: Seq<u8>) -> Option<BencodeView> {
    match value_at(bytes, MAX_DEPTH as nat) {
        Some((value, n)) => if n == bytes.len() {
            Some(value)
        } else {
            None
        },
        None => None,
    }
}

/// Reads the byte string at `pos`.
fn read_byte_string(input: &[u8], pos: usize) -> (r: Option<(Vec<u8>, usize)>)
    requires
        pos <= input@.len(),
    ensures
        match r {
            Some((bytes, end)) => pos < end <= input@.len() && byte_string_at(
                input@.skip(pos as int),
            ) == Some((bytes@, end - pos)),
            None => byte_string_at(input@.skip(pos as int)) is None,
        },
{
    let ghost s = input@.skip(pos as int);
    let remaining = input.len() - pos;
    let (len, colon) = match read_number(input, pos, remaining as u64) {
        Some(number) => number,
        None => {
            return None;
        },
    };
    if colon >= input.len() || input[colon] != COLON {
        assert(colon < input@.len() ==> s[colon - pos] == input@[colon as int]);
        return None;
    }
    assert(s[colon - pos] == input@[colon as int]);
    let start = colon + 1;
    let len = len as usize;
    if len > input.len() - start {
        return None;
    }
    let mut bytes: Vec<u8> = Vec::new();
    let mut k: usize = 0;
    while k < len
        invariant
            k <= len,
            start + len <= input@.len() <= usize::MAX,
            bytes@ == input@.subrange(start as int, start + k),
        decreases len - k,
    {
        bytes.push(input[start + k]);
        assert(bytes@ =~= input@.subrange(start as int, start + k + 1));
        k += 1;
    }
    assert(bytes@ =~= s.subrange(start - pos, start - pos + len));
    Some((bytes, start + len))
}

/// Reads the integer at `pos`.
fn read_integer(input: &[u8], pos: usize) -> (r: Option<(i64, usize)>)
    requires
        pos < input@.len(),
        input@[pos as int] == INT_START,
    ensures
        match r {
            Some((value, end)) => pos < end <= input@.len() && integer_at(input@.skip(pos as int))
                == Some((value as int, end - pos)),
            None => integer_at(input@.skip(pos as int)) is None,
        },
{
    let ghost s = input@.skip(pos as int);
    assert(s[0] == input@[pos as int]);
    let negative = input.len() - pos > 1 && input[pos + 1] == MINUS;
    assert(s.len() > 1 ==> s[1] == input@[pos + 1]);
    let start = if negative {
        pos + 2
    } else {
        pos + 1
    };
    assert(s.skip(start - pos) =~= input@.skip(start as int));
    let (magnitude, end) = match read_number(input, start, 0x8000_0000_0000_0000) {
        Some(number) => number,
        None => {
            return None;
        },
    };
    if end >= input.len() || input[end] != END {
        assert(end < input@.len() ==> s[end - pos] == input@[end as int]);
        return None;
    }
    assert(s[end - pos] == input@[end as int]);
    if negative {
        if magnitude == 0 {
            return None;
        }
        let value: i64 = if magnitude == 0x8000_0000_0000_0000 {
            i64::MIN
        } else {
            -(magnitude as i64)
        };
        Some((value, end + 1))
    } else {
        if magnitude > 0x7fff_ffff_ffff_ffff {
            return None;
        }
        Some((magnitude as i64, end + 1))
    }
}

/// Whether `a` stands before `b` in the order of byte strings.
pub fn less_bytes(a: &[u8], b: &[u8]) -> (r: bool)
    ensures
        r == lex_less(a@, b@),
{
    let mut k: usize = 0;
    assert(a@.skip(0) =~= a@ && b@.skip(0) =~= b@);
    loop
        invariant
            k <= a@.len(),
            k <= b@.len(),
            lex_less(a@, b@) == lex_less(a@.skip(k as int), b@.skip(k as int)),
        decreases a@.len() - k,
    {
        if k >= b.len() {
            return false;
        }
        if k >= a.len() {
            return true;
        }
        assert(a@.skip(k as int)[0] == a@[k as int] && b@.skip(k as int)[0] == b@[k as int]);
        if a[k] != b[k] {
            return a[k] < b[k];
        }
        assert(a@.skip(k as int).skip(1) =~= a@.skip(k + 1));
        assert(b@.skip(k as int).skip(1) =~= b@.skip(k + 1));
        k += 1;
    }
}

/// The items read so far, before those that are still to be read.
pub open spec fn items_behind(
    read: Seq<BencodeView>,
    offset: int,
    rest: Option<(Seq<BencodeView>, int)>,
) -> Option<(Seq<BencodeView>, int)> {
    match rest {
        Some((items, n)) => Some((read + items, offset + n)),
        None => None,
    }
}

/// The entries read so far, before those that are still to be read.
pub open spec fn entries_behind(
    read: Seq<(Seq<u8>, BencodeView)>,
    offset: int,
    rest: Option<(Seq<(Seq<u8>, BencodeView)>, int)>,
) -> Option<(Seq<(Seq<u8>, BencodeView)>, int)> {
    match rest {
        Some((entries, n)) => Some((read + entries, offset + n)),
        None => None,
    }
}

/// The key of the last entry, where there is one.
pub open spec fn last_key(entries: Seq<(Seq<u8>, BencodeView)>) -> Option<Seq<u8>> {
    if entries.len() == 0 {
        None
    } else {
        Some(entries.last().0)
    }
}

impl Bencode {
    /// Reads the value at `pos`, whose lists and dictionaries may stand
    /// `depth` deep in one another.
    fn read_value(input: &[u8], pos: usize, depth: usize) -> (r: Option<(Bencode, usize)>)
        requires
            pos <= input@.len(),
        ensures
            match r {
                Some((value, end)) => pos < end <= input@.len() && value_at(
                    input@.skip(pos as int),
                    depth as nat,
                ) == Some((value@, end - pos)),
                None => value_at(input@.skip(pos as int), depth as nat) is None,
            },
        decreases depth, 0nat,
    {
        let ghost s = input@.skip(pos as int);
        if pos >= input.len() {
            return None;
        }
        assert(s[0] == input@[pos as int]);
        let first = input[pos];
        if first == INT_START {
            match read_integer(input, pos) {
                Some((value, end)) => Some((Bencode::Int(value), end)),
                None => None,
            }
        } else if first == LIST_START {
            if depth == 0 {
                return None;
            }
            assert(s.skip(1) =~= input@.skip(pos + 1));
            match Bencode::read_items(input, pos + 1, depth - 1) {
                Some((items, end)) => Some((Bencode::List(items), end)),
                None => None,
            }
        } else if first == DICT_START {
            if depth == 0 {
                return None;
            }
            assert(s.skip(1) =~= input@.skip(pos + 1));
            match Bencode::read_entries(input, pos + 1, depth - 1) {
                Some((entries, end)) => Some((Bencode::Dict(entries), end)),
                None => None,
            }
        } else {
            match read_byte_string(input, pos) {
                Some((bytes, end)) => Some((Bencode::Bytes(bytes), end)),
                None => None,
            }
        }
    }

    /// Reads the items of a list from `start` up to the byte that closes
    /// the list.
    fn read_items(input: &[u8], start: usize, depth: usize) -> (r: Option<(Vec<Bencode>, usize)>)
        requires
            start <= input@.len(),
        ensures
            match r {
                Some((items, end)) => start < end <= input@.len() && items_at(
                    input@.skip(start as int),
                    depth as nat,
                ) == Some((item_views(items@), end - start)),
                None => items_at(input@.skip(start as int), depth as nat) is None,
            },
        decreases depth, 1nat,
    {
        let mut items: Vec<Bencode> = Vec::new();
        let mut k: usize = start;
        assert(Seq::<BencodeView>::empty() + items_at(
            input@.skip(start as int),
            depth as nat,
        ).unwrap().0 =~= items_at(input@.skip(start as int), depth as nat).unwrap().0);
        loop
            invariant
                start <= k <= input@.len(),
                items_at(input@.skip(start as int), depth as nat) == items_behind(
                    item_views(items@),
                    k - start,
                    items_at(input@.skip(k as int), depth as nat),
                ),
            decreases input@.len() - k,
        {
            let ghost here = input@.skip(k as int);
            if k >= input.len() {
                return None;
            }
            assert(here[0] == input@[k as int]);
            if input[k] == END {
                assert(item_views(items@) + Seq::<BencodeView>::empty() =~= item_views(items@));
                return Some((items, k + 1));
            }
            match Bencode::read_value(input, k, depth) {
                Some((item, end)) => {
                    proof {
                        assert(here.skip(end - k) =~= input@.skip(end as int));
                        let rest = items_at(input@.skip(end as int), depth as nat);
                        assert(items@.push(item).subrange(0, items@.len() as int) =~= items@);
                        assert(item_views(items@.push(item)) == item_views(items@).push(item@));
                        if rest is Some {
                            assert(item_views(items@) + (seq![item@] + rest.unwrap().0)
                                =~= item_views(items@).push(item@) + rest.unwrap().0);
                        }
                    }
                    items.push(item);
                    k = end;
                },
                None => {
                    return None;
                },
            }
        }
    }

    /// Reads the entries of a dictionary from `start` up to the byte that
    /// closes the dictionary.
    fn read_entries(input: &[u8], start: usize, depth: usize) -> (r: Option<
        (Vec<(Vec<u8>, Bencode)>, usize),
    >)
        requires
            start <= input@.len(),
        ensures
            match r {
                Some((entries, end)) => start < end <= input@.len() && entries_at(
                    input@.skip(start as int),
                    depth as nat,
                    None,
                ) == Some((entry_views(entries@), end - start)),
                None => entries_at(input@.skip(start as int), depth as nat, None) is None,
            },
        decreases depth, 1nat,
    {
        let mut entries: Vec<(Vec<u8>, Bencode)> = Vec::new();
        let mut k: usize = start;
        assert(Seq::<(Seq<u8>, BencodeView)>::empty() + entries_at(
            input@.skip(start as int),
            depth as nat,
            None,
        ).unwrap().0 =~= entries_at(input@.skip(start as int), depth as nat, None).unwrap().0);
        loop
            invariant
                start <= k <= input@.len(),
                entries_at(input@.skip(start as int), depth as nat, None) == entries_behind(
                    entry_views(entries@),
                    k - start,
                    entries_at(
                        input@.skip(k as int),
                        depth as nat,
                        last_key(entry_views(entries@)),
                    ),
                ),
            decreases input@.len() - k,
        {
            let ghost here = input@.skip(k as int);
            let ghost read = entry_views(entries@);
            if k >= input.len() {
                return None;
            }
            assert(here[0] == input@[k as int]);
            if input[k] == END {
                assert(read + Seq::<(Seq<u8>, BencodeView)>::empty() =~= read);
                return Some((entries, k + 1));
            }
            let (key, after_key) = match read_byte_string(input, k) {
                Some(key) => key,
                None => {
                    return None;
                },
            };
            proof {
                lemma_entry_views(entries@);
            }
            if entries.len() > 0 && !less_bytes(
                entries[entries.len() - 1].0.as_slice(),
                key.as_slice(),
            ) {
                return None;
            }
            assert(follows(last_key(read), key@));
            assert(here.skip(after_key - k) =~= input@.skip(after_key as int));
            match Bencode::read_value(input, after_key, depth) {
                Some((value, end)) => {
                    proof {
                        assert(here.skip(end - k) =~= input@.skip(end as int));
                        let rest = entries_at(input@.skip(end as int), depth as nat, Some(key@));
                        let more = entries@.push((key, value));
                        assert(more.subrange(0, entries@.len() as int) =~= entries@);
                        assert(entry_views(more) == read.push((key@, value@)));
                        assert(last_key(entry_views(more)) == Some(key@));
                        if rest is Some {
                            assert(read + (seq![(key@, value@)] + rest.unwrap().0) =~= read.push(
                                (key@, value@),
                            ) + rest.unwrap().0);
                        }
                    }
                    entries.push((key, value));
                    k = end;
                },
                None => {
                    return None;
                },
            }
        }
    }

    /// Reads the value that the bytes are the wire form of: the one
    /// canonical value with that wire form, where there is one.
    pub fn decode(input: &[u8]) -> (r: Option<Bencode>)
        ensures
            match r {
                Some(value) => decoding(input@) == Some(value@),
                None => decoding(input@) is None,
            },
            r is Some ==> canonical(r.unwrap()@, MAX_DEPTH as nat) && encoding(r.unwrap()@)
                == input@,
            r is None ==> forall|value: BencodeView|
                canonical(value, MAX_DEPTH as nat) ==> #[trigger] encoding(value) != input@,
    {
        assert(input@.skip(0) =~= input@);
        proof {
            assert forall|value: BencodeView|
                decoding(input@) == Some(value) <==> canonical(value, MAX_DEPTH as nat)
                    && #[trigger] encoding(value) == input@ by {
                lemma_decoding_decides(input@, value);
            }
        }
        match Bencode::read_value(input, 0, MAX_DEPTH) {
            Some((value, end)) => if end == input.len() {
                proof {
                    lemma_decoding_decides(input@, value@);
                }
                Some(value)
            } else {
                None
            },
            None => None,
        }
    }
}

/// Whether a value has a wire form that is read back: its integers fit in
/// 64 bits, the keys of its dictionaries rise strictly, and its lists and
/// dictionaries stand at most `depth` deep in one another.
pub open spec fn canonical(value: BencodeView, depth: nat) -> bool
    decreases value,
{
    match value {
        BencodeView::Bytes(_) => true,
        BencodeView::Int(value) => -0x8000_0000_0000_0000 <= value <= 0x7fff_ffff_ffff_ffff,
        BencodeView::List(items) => depth > 0 && forall|k: int|
            0 <= k < items.len() ==> canonical(#[trigger] items[k], (depth - 1) as nat),
        BencodeView::Dict(entries) => {
            &&& depth > 0
            &&& forall|k: int|
                0 <= k < entries.len() ==> canonical((#[trigger] entries[k]).1, (depth - 1) as nat)
            &&& forall|k: int|
                0 < k < entries.len() ==> lex_less(entries[k - 1].0, (#[trigger] entries[k]).0)
        },
    }
}

/// The wire form of a byte string is read as the byte string.
pub proof fn lemma_byte_string_at(bytes: Seq<u8>, rest: Seq<u8>)
    ensures
        byte_string_at(byte_string(bytes) + rest) == Some((bytes, byte_string(bytes).len() as int)),
        byte_string(bytes).len() > 0,
        is_digit(byte_string(bytes)[0]),
{
    let s = byte_string(bytes) + rest;
    let n = digits(bytes.len()).len() as int;
    lemma_digits(bytes.len());
    lemma_number_at(bytes.len(), seq![COLON] + bytes + rest);
    assert(s =~= digits(bytes.len()) + (seq![COLON] + bytes + rest));
    assert(s[n] == COLON);
    assert(s.subrange(n + 1, n + 1 + bytes.len()) =~= bytes);
    assert(byte_string(bytes)[0] == digits(bytes.len())[0]);
}

/// The wire form of an integer of 64 bits is read as the integer.
pub proof fn lemma_integer_at(value: int, rest: Seq<u8>)
    requires
        -0x8000_0000_0000_0000 <= value <= 0x7fff_ffff_ffff_ffff,
    ensures
        integer_at(integer(value) + rest) == Some((value, integer(value).len() as int)),
        integer(value).len() > 0,
        integer(value)[0] == INT_START,
{
    let s = integer(value) + rest;
    if value < 0 {
        let magnitude = (-value) as nat;
        lemma_digits(magnitude);
        lemma_number_at(magnitude, seq![END] + rest);
        assert(s[0] == INT_START && s[1] == MINUS);
        assert(s.skip(2) =~= digits(magnitude) + (seq![END] + rest));
        assert(s[2 + digits(magnitude).len() as int] == END);
    } else {
        let magnitude = value as nat;
        lemma_digits(magnitude);
        lemma_number_at(magnitude, seq![END] + rest);
        assert(s[0] == INT_START);
        assert(s[1] == digits(magnitude)[0]);
        assert(s.skip(1) =~= digits(magnitude) + (seq![END] + rest));
        assert(s[1 + digits(magnitude).len() as int] == END);
    }
}

/// The wire form of a canonical value is read as the value, whatever
/// follows it.
pub proof fn lemma_value_at(value: BencodeView, depth: nat, rest: Seq<u8>)
    requires
        canonical(value, depth),
    ensures
        value_at(encoding(value) + rest, depth) == Some((value, encoding(value).len() as int)),
        encoding(value).len() > 0,
        encoding(value)[0] != END,
    decreases value, 0nat,
{
    let s = encoding(value) + rest;
    match value {
        BencodeView::Bytes(bytes) => {
            lemma_byte_string_at(bytes, rest);
            assert(s[0] == byte_string(bytes)[0]);
        },
        BencodeView::Int(number) => {
            lemma_integer_at(number, rest);
            assert(s[0] == INT_START);
        },
        BencodeView::List(items) => {
            lemma_items_at(items, (depth - 1) as nat, rest);
            assert(s[0] == LIST_START);
            assert(s.skip(1) =~= encoding_items(items) + seq![END] + rest);
        },
        BencodeView::Dict(entries) => {
            lemma_entries_at(entries, (depth - 1) as nat, None, rest);
            assert(s[0] == DICT_START);
            assert(s.skip(1) =~= encoding_entries(entries) + seq![END] + rest);
        },
    }
}

/// The wire forms of canonical items, closed by the end byte, are read as
/// the items.
pub proof fn lemma_items_at(items: Seq<BencodeView>, depth: nat, rest: Seq<u8>)
    requires
        forall|k: int| 0 <= k < items.len() ==> canonical(#[trigger] items[k], depth),
    ensures
        items_at(encoding_items(items) + seq![END] + rest, depth) == Some(
            (items, encoding_items(items).len() as int + 1),
        ),
    decreases items, 1nat,
{
    let s = encoding_items(items) + seq![END] + rest;
    if items.len() == 0 {
        assert(s[0] == END);
    } else {
        let tail = items.subrange(1, items.len() as int);
        let behind = encoding_items(tail) + seq![END] + rest;
        let n = encoding(items[0]).len() as int;
        lemma_value_at(items[0], depth, behind);
        assert(s =~= encoding(items[0]) + behind);
        assert(s[0] == encoding(items[0])[0]);
        assert(s.skip(n) =~= behind);
        assert forall|k: int| 0 <= k < tail.len() implies canonical(#[trigger] tail[k], depth) by {
            assert(tail[k] == items[k + 1]);
        }
        lemma_items_at(tail, depth, rest);
        assert(seq![items[0]] + tail =~= items);
    }
}

/// The wire forms of canonical entries whose keys rise strictly from
/// above `floor`, closed by the end byte, are read as the entries.
pub proof fn lemma_entries_at(
    entries: Seq<(Seq<u8>, BencodeView)>,
    depth: nat,
    floor: Option<Seq<u8>>,
    rest: Seq<u8>,
)
    requires
        forall|k: int| 0 <= k < entries.len() ==> canonical((#[trigger] entries[k]).1, depth),
        forall|k: int| 0 < k < entries.len() ==> lex_less(entries[k - 1].0, (#[trigger] entries[k]).0),
        entries.len() > 0 ==> follows(floor, entries[0].0),
    ensures
        entries_at(encoding_entries(entries) + seq![END] + rest, depth, floor) == Some(
            (entries, encoding_entries(entries).len() as int + 1),
        ),
    decreases entries, 1nat,
{
    let s = encoding_entries(entries) + seq![END] + rest;
    if entries.len() == 0 {
        assert(s[0] == END);
    } else {
        let tail = entries.subrange(1, entries.len() as int);
        let behind = encoding_entries(tail) + seq![END] + rest;
        let key = entries[0].0;
        let value = entries[0].1;
        let n = byte_string(key).len() as int;
        let m = encoding(value).len() as int;
        lemma_byte_string_at(key, encoding(value) + behind);
        lemma_value_at(value, depth, behind);
        assert(s =~= byte_string(key) + (encoding(value) + behind));
        assert(s[0] == byte_string(key)[0]);
        assert(s.skip(n) =~= encoding(value) + behind);
        assert(s.skip(n + m) =~= behind);
        assert forall|k: int| 0 <= k < tail.len() implies canonical((#[trigger] tail[k]).1, depth) by {
            assert(tail[k] == entries[k + 1]);
        }
        assert forall|k: int| 0 < k < tail.len() implies lex_less(
            tail[k - 1].0,
            (#[trigger] tail[k]).0,
        ) by {
            assert(tail[k] == entries[k + 1] && tail[k - 1] == entries[k]);
        }
        if tail.len() > 0 {
            assert(tail[0] == entries[1]);
        }
        lemma_entries_at(tail, depth, Some(key), rest);
        assert(seq![(key, value)] + tail =~= entries);
    }
}

/// Reading the wire form of a canonical value gives the value.
pub proof fn lemma_decoding_of_encoding(value: BencodeView)
    requires
        canonical(value, MAX_DEPTH as nat),
    ensures
        decoding(encoding(value)) == Some(value),
{
    lemma_value_at(value, MAX_DEPTH as nat, Seq::empty());
    assert(encoding(value) + Seq::<u8>::empty() =~= encoding(value));
}

/// A byte string that was read stands at the start in its wire form.
pub proof fn lemma_byte_string_read(s: Seq<u8>)
    ensures
        match byte_string_at(s) {
            Some((bytes, n)) => 0 < n <= s.len() && byte_string(bytes) == s.take(n),
            None => true,
        },
{
    lemma_number_read(s);
    if byte_string_at(s) is Some {
        let (len, n) = number_at(s).unwrap();
        let bytes = s.subrange(n + 1, n + 1 + len);
        assert(byte_string(bytes) =~= s.take(n + 1 + len));
    }
}

/// An integer that was read fits in 64 bits and stands at the start in
/// its wire form.
pub proof fn lemma_integer_read(s: Seq<u8>)
    ensures
        match integer_at(s) {
            Some((value, n)) => 0 < n <= s.len() && integer(value) == s.take(n)
                && -0x8000_0000_0000_0000 <= value <= 0x7fff_ffff_ffff_ffff,
            None => true,
        },
{
    if integer_at(s) is Some {
        let negative = s.len() > 1 && s[1] == MINUS;
        let start: int = if negative {
            2
        } else {
            1
        };
        lemma_number_read(s.skip(start));
        let (magnitude, n) = number_at(s.skip(start)).unwrap();
        let (value, end) = integer_at(s).unwrap();
        assert(s.skip(start).take(n) =~= s.subrange(start, start + n));
        assert(integer(value) =~= s.take(end));
    }
}

/// A value that was read is canonical and stands at the start in its
/// wire form.
pub proof fn lemma_value_read(s: Seq<u8>, depth: nat)
    ensures
        match value_at(s, depth) {
            Some((value, n)) => 0 < n <= s.len() && encoding(value) == s.take(n) && canonical(
                value,
                depth,
            ),
            None => true,
        },
    decreases s.len(), 0nat,
{
    if value_at(s, depth) is Some {
        let (value, n) = value_at(s, depth).unwrap();
        if s[0] == INT_START {
            lemma_integer_read(s);
        } else if s[0] == LIST_START {
            lemma_items_read(s.skip(1), (depth - 1) as nat);
            let (items, m) = items_at(s.skip(1), (depth - 1) as nat).unwrap();
            assert(s.skip(1).take(m) =~= s.subrange(1, 1 + m));
            assert(value == BencodeView::List(items) && n == m + 1);
            assert(seq![LIST_START] + s.subrange(1, 1 + m) =~= s.take(n));
            assert(encoding(value) =~= seq![LIST_START] + (encoding_items(items) + seq![END]));
        } else if s[0] == DICT_START {
            lemma_entries_read(s.skip(1), (depth - 1) as nat, None);
            let (entries, m) = entries_at(s.skip(1), (depth - 1) as nat, None).unwrap();
            assert(s.skip(1).take(m) =~= s.subrange(1, 1 + m));
            assert(value == BencodeView::Dict(entries) && n == m + 1);
            assert(seq![DICT_START] + s.subrange(1, 1 + m) =~= s.take(n));
            assert(encoding(value) =~= seq![DICT_START] + (encoding_entries(entries) + seq![END]));
        } else {
            lemma_byte_string_read(s);
        }
    }
}

/// Items that were read are canonical and stand at the start in their
/// wire forms, closed by the end byte.
pub proof fn lemma_items_read(s: Seq<u8>, depth: nat)
    ensures
        match items_at(s, depth) {
            Some((items, n)) => {
                &&& 0 < n <= s.len()
                &&& encoding_items(items) + seq![END] == s.take(n)
                &&& forall|k: int| 0 <= k < items.len() ==> canonical(#[trigger] items[k], depth)
            },
            None => true,
        },
    decreases s.len(), 1nat,
{
    if items_at(s, depth) is Some {
        let (items, total) = items_at(s, depth).unwrap();
        if s[0] == END {
            assert(encoding_items(items) + seq![END] =~= s.take(1));
        } else {
            lemma_value_read(s, depth);
            let (first, n) = value_at(s, depth).unwrap();
            lemma_items_read(s.skip(n), depth);
            let (rest, m) = items_at(s.skip(n), depth).unwrap();
            assert(items == seq![first] + rest);
            assert(items.subrange(1, items.len() as int) =~= rest);
            assert(s.skip(n).take(m) =~= s.subrange(n, n + m));
            assert(items[0] == first);
            assert(encoding_items(items) == encoding(first) + encoding_items(rest));
            assert(s.take(n) + s.subrange(n, n + m) =~= s.take(n + m));
            assert(encoding_items(items) + seq![END] =~= encoding(first) + (encoding_items(rest)
                + seq![END]));
            assert forall|k: int| 0 <= k < items.len() implies canonical(#[trigger] items[k], depth) by {
                if k > 0 {
                    assert(items[k] == rest[k - 1]);
                }
            }
        }
    }
}

/// Entries that were read are canonical, have keys that rise strictly
/// from above `floor`, and stand at the start in their wire forms, closed
/// by the end byte.
pub proof fn lemma_entries_read(s: Seq<u8>, depth: nat, floor: Option<Seq<u8>>)
    ensures
        match entries_at(s, depth, floor) {
            Some((entries, n)) => {
                &&& 0 < n <= s.len()
                &&& encoding_entries(entries) + seq![END] == s.take(n)
                &&& forall|k: int|
                    0 <= k < entries.len() ==> canonical((#[trigger] entries[k]).1, depth)
                &&& forall|k: int|
                    0 < k < entries.len() ==> lex_less(entries[k - 1].0, (#[trigger] entries[k]).0)
                &&& entries.len() > 0 ==> follows(floor, entries[0].0)
            },
            None => true,
        },
    decreases s.len(), 1nat,
{
    if entries_at(s, depth, floor) is Some {
        let (entries, total) = entries_at(s, depth, floor).unwrap();
        if s[0] == END {
            assert(encoding_entries(entries) + seq![END] =~= s.take(1));
        } else {
            lemma_byte_string_read(s);
            let (key, n) = byte_string_at(s).unwrap();
            lemma_value_read(s.skip(n), depth);
            let (value, m) = value_at(s.skip(n), depth).unwrap();
            lemma_entries_read(s.skip(n + m), depth, Some(key));
            let (rest, r) = entries_at(s.skip(n + m), depth, Some(key)).unwrap();
            assert(entries == seq![(key, value)] + rest);
            assert(entries.subrange(1, entries.len() as int) =~= rest);
            assert(s.skip(n).take(m) =~= s.subrange(n, n + m));
            assert(s.skip(n + m).take(r) =~= s.subrange(n + m, n + m + r));
            assert(entries[0] == (key, value));
            assert(encoding_entries(entries) == byte_string(key) + encoding(value)
                + encoding_entries(rest));
            assert(s.take(n) + s.subrange(n, n + m) + s.subrange(n + m, n + m + r) =~= s.take(
                n + m + r,
            ));
            assert(encoding_entries(entries) + seq![END] =~= byte_string(key) + encoding(value) + (
            encoding_entries(rest) + seq![END]));
            assert forall|k: int| 0 <= k < entries.len() implies canonical(
                (#[trigger] entries[k]).1,
                depth,
            ) by {
                if k > 0 {
                    assert(entries[k] == rest[k - 1]);
                }
            }
            assert forall|k: int| 0 < k < entries.len() implies lex_less(
                entries[k - 1].0,
                (#[trigger] entries[k]).0,
            ) by {
                assert(entries[k] == rest[k - 1]);
                if k > 1 {
                    assert(entries[k - 1] == rest[k - 2]);
                }
            }
        }
    }
}

/// Bytes are read as a value exactly where they are the wire form of a
/// canonical value, and then as that value.
pub proof fn lemma_decoding_decides(bytes: Seq<u8>, value: BencodeView)
    ensures
        decoding(bytes) == Some(value) <==> canonical(value, MAX_DEPTH as nat) && encoding(value)
            == bytes,
{
    lemma_value_read(bytes, MAX_DEPTH as nat);
    if decoding(bytes) == Some(value) {
        assert(bytes.take(bytes.len() as int) =~= bytes);
    }
    if canonical(value, MAX_DEPTH as nat) && encoding(value) == bytes {
        lemma_decoding_of_encoding(value);
    }
}

} // verus!
