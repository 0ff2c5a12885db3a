//! EBML element framing.
//!
//! An element on the wire is `<id varint><size varint><payload>`, where the
//! payload is exactly `size` bytes. Readers and writers here work on byte
//! buffers; a stream adapter reads the header byte by byte with
//! [`crate::varint::header_len`] and hands whole buffers to these functions.

use crate::varint;
use vstd::prelude::*;

verus! {

/// The header of an element: its identifier and the byte length of its
/// payload.
#[derive(Clone, Copy, Debug, PartialEq, Eq, Structural)]
pub struct ElementInfo {
    pub id: u64,
    pub size: usize,
}

impl ElementInfo {
    /// Both fields are small enough for the varint encoding.
    pub open spec fn wf(self) -> bool {
        self.id < varint::VALUE_LIMIT && self.size < varint::VALUE_LIMIT
    }
}

/// A whole element: its header and its payload.
#[derive(Debug)]
pub struct Element {
    pub info: ElementInfo,
    pub data: Vec<u8>,
}

impl Element {
    /// The payload holds exactly the declared number of bytes.
    pub open spec fn wf(self) -> bool {
        self.info.wf() && self.data@.len() == self.info.size
    }
}

/// The bytes of an element header: the id varint, then the size varint.
pub open spec fn info_encoding(info: ElementInfo) -> Seq<u8> {
    varint::encoding(info.id as int) + varint::encoding(info.size as int)
}

/// The bytes of a whole element: its header, then the payload verbatim.
pub open spec fn element_encoding(info: ElementInfo, data: Seq<u8>) -> Seq<u8> {
    info_encoding(info) + data
}

/// Parsing an element header at `pos` of `s`: one varint for the id, one for
/// the size. The size must fit the machine's `usize`, since it is the length
/// of a payload held in memory.
pub open spec fn info_at(s: Seq<u8>, pos: int) -> Option<(ElementInfo, int)> {
    match varint::parse_at(s, pos) {
        Some((id, mid)) => match varint::parse_at(s, mid) {
            Some((size, end)) => if size <= usize::MAX {
                Some((ElementInfo { id: id as u64, size: size as usize }, end))
            } else {
                None
            },
            None => None,
        },
        None => None,
    }
}

/// Parsing a whole element at `pos` of `s`: a header, then exactly the
/// declared number of payload bytes.
pub open spec fn element_at(s: Seq<u8>, pos: int) -> Option<(ElementInfo, Seq<u8>, int)> {
    match info_at(s, pos) {
        Some((info, mid)) => if mid + info.size <= s.len() {
            Some((info, s.subrange(mid, mid + info.size), mid + info.size))
        } else {
            None
        },
        None => None,
    }
}

/// Read an element header at `pos` in `buf`. Returns the header and the
/// position just after it, or `None` if the buffer ends before the header
/// does or the declared size does not fit `usize`.
pub fn read_element_info(buf: &Vec<u8>, pos: usize) -> (r: Option<(ElementInfo, usize)>)
    ensures
        match r {
            Some(pair) => info_at(buf@, pos as int) == Some((pair.0, pair.1 as int)) && pair.0.wf()
                && pos < pair.1 <= buf@.len(),
            None => info_at(buf@, pos as int) is None,
        },
{
    let (id_value, mid) = match varint::decode(buf, pos) {
        Some(pair) => pair,
        None => {
            return None;
        },
    };
    let (size_value, end) = match varint::decode(buf, mid) {
        Some(pair) => pair,
        None => {
            return None;
        },
    };
    if size_value as u64 > usize::MAX as u64 {
        return None;
    }
    Some((ElementInfo { id: id_value as u64, size: size_value as usize }, end))
}

/// Read a whole element at `pos` in `buf`: its header, then exactly the
/// declared number of payload bytes, copied out of the buffer. Returns
/// `None` if the buffer ends before the element does.
pub fn read_element(buf: &Vec<u8>, pos: usize) -> (r: Option<(Element, usize)>)
    ensures
        match r {
            Some(pair) => element_at(buf@, pos as int) == Some(
                (pair.0.info, pair.0.data@, pair.1 as int),
            ) && pair.0.wf() && pos < pair.1 <= buf@.len(),
            None => element_at(buf@, pos as int) is None,
        },
{
    let (info, mid) = match read_element_info(buf, pos) {
        Some(pair) => pair,
        None => {
            return None;
        },
    };
    if buf.len() - mid < info.size {
        return None;
    }
    let end = mid + info.size;
    let mut data: Vec<u8> = Vec::new();
    proof {
        assert(buf@.subrange(mid as int, mid as int) =~= Seq::<u8>::empty());
    }
    let mut i = mid;
    while i < end
        invariant
            mid <= i <= end <= buf@.len(),
            data@ == buf@.subrange(mid as int, i as int),
        decreases end - i,
    {
        data.push(buf[i]);
        proof {
            assert(buf@.subrange(mid as int, i + 1) =~= buf@.subrange(mid as int, i as int).push(
                buf@[i as int],
            ));
        }
        i = i + 1;
    }
    Some((Element { info, data }, end))
}

/// Write an element header: the id varint, then the size varint.
pub fn write_element_info(info: &ElementInfo) -> (out: Vec<u8>)
    requires
        info.wf(),
    ensures
        out@ == info_encoding(*info),
{
    let mut out = varint::encode(info.id as i64);
    let mut tail = varint::encode(info.size as i64);
    out.append(&mut tail);
    out
}

/// Write a whole element: its header, then the payload bytes verbatim.
/// Consumes the element, as the payload moves into the output.
pub fn write_element(elem: Element) -> (out: Vec<u8>)
    requires
        elem.wf(),
    ensures
        out@ == element_encoding(elem.info, elem.data@),
{
    let mut out = write_element_info(&elem.info);
    let mut data = elem.data;
    out.append(&mut data);
    out
}

/// Element round trip: parsing the written bytes of any well-formed element
/// gives back exactly its header, its payload, and the total length.
pub proof fn lemma_element_round_trip(info: ElementInfo, data: Seq<u8>)
    requires
        info.wf(),
        data.len() == info.size,
    ensures
        element_at(element_encoding(info, data), 0) == Some(
            (info, data, element_encoding(info, data).len() as int),
        ),
{
    let id_enc = varint::encoding(info.id as int);
    let size_enc = varint::encoding(info.size as int);
    let s = element_encoding(info, data);
    varint::lemma_round_trip(info.id as int);
    varint::lemma_round_trip(info.size as int);
    let l1 = id_enc.len() as int;
    let l2 = size_enc.len() as int;
    assert(s.len() == l1 + l2 + data.len());
    assert(s[0] == id_enc[0]);
    assert(s.subrange(0, l1) =~= id_enc);
    assert(varint::parse_at(s, 0) == Some((info.id as int, l1)));
    assert(s[l1] == size_enc[0]);
    assert(s.subrange(l1, l1 + l2) =~= size_enc);
    assert(varint::parse_at(s, l1) == Some((info.size as int, l1 + l2)));
    assert(info_at(s, 0) == Some((info, l1 + l2)));
    assert(s.subrange(l1 + l2, l1 + l2 + info.size) =~= data);
}

} // verus!
