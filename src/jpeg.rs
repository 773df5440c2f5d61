use vstd::prelude::*;

use crate::DecodeError;
use std::collections::VecDeque;

verus! {

/// The segment markers that this decoder recognises.
#[derive(Debug, Clone, Copy, PartialEq, Eq, Structural)]
pub enum Markers {
    StartOfImage,
    ApplicationDefaultHeader,
    QuantizationTable,
    StartOfFrame,
    DefineHuffmanTable,
    StartOfScan,
    EndOfImage,
}

/// A big-endian 16-bit value.
pub open spec fn be16(hi: u8, lo: u8) -> int {
    hi as int * 256 + lo as int
}

/// The marker for a tag, if it is one of the recognised ones.
pub open spec fn marker_of(tag: int) -> Option<Markers> {
    if tag == 0xffd8 {
        Some(Markers::StartOfImage)
    } else if tag == 0xffe0 {
        Some(Markers::ApplicationDefaultHeader)
    } else if tag == 0xffdb {
        Some(Markers::QuantizationTable)
    } else if tag == 0xffc0 {
        Some(Markers::StartOfFrame)
    } else if tag == 0xffc4 {
        Some(Markers::DefineHuffmanTable)
    } else if tag == 0xffda {
        Some(Markers::StartOfScan)
    } else if tag == 0xffd9 {
        Some(Markers::EndOfImage)
    } else {
        None
    }
}

/// The readable name of each marker.
pub open spec fn marker_name(m: Markers) -> Seq<char> {
    match m {
        Markers::StartOfImage => "Start of Image"@,
        Markers::ApplicationDefaultHeader => "Application Default Header"@,
        Markers::QuantizationTable => "Quantization Table"@,
        Markers::StartOfFrame => "Start of Frame"@,
        Markers::DefineHuffmanTable => "Define Huffman Table"@,
        Markers::StartOfScan => "Start of Scan"@,
        Markers::EndOfImage => "End of Image"@,
    }
}

impl Markers {
    /// Classifies a 16-bit tag; anything unrecognised is rejected.
    pub fn from_u16(marker: u16) -> (r: Result<Markers, DecodeError>)
        ensures
            marker_of(marker as int) matches Some(m) ==> r == Ok::<Markers, DecodeError>(m),
            marker_of(marker as int) is None ==> r == Err::<Markers, DecodeError>(
                DecodeError::UnknownMarker,
            ),
    {
        match marker {
            0xffd8 => Ok(Markers::StartOfImage),
            0xffe0 => Ok(Markers::ApplicationDefaultHeader),
            0xffdb => Ok(Markers::QuantizationTable),
            0xffc0 => Ok(Markers::StartOfFrame),
            0xffc4 => Ok(Markers::DefineHuffmanTable),
            0xffda => Ok(Markers::StartOfScan),
            0xffd9 => Ok(Markers::EndOfImage),
            _ => Err(DecodeError::UnknownMarker),
        }
    }

    /// A readable name for the marker.
    pub fn description(&self) -> (r: &'static str)
        ensures
            r@ == marker_name(*self),
    {
        match self {
            Markers::StartOfImage => {
                proof { reveal_strlit("Start of Image"); }
                "Start of Image"
            },
            Markers::ApplicationDefaultHeader => {
                proof { reveal_strlit("Application Default Header"); }
                "Application Default Header"
            },
            Markers::QuantizationTable => {
                proof { reveal_strlit("Quantization Table"); }
                "Quantization Table"
            },
            Markers::StartOfFrame => {
                proof { reveal_strlit("Start of Frame"); }
                "Start of Frame"
            },
            Markers::DefineHuffmanTable => {
                proof { reveal_strlit("Define Huffman Table"); }
                "Define Huffman Table"
            },
            Markers::StartOfScan => {
                proof { reveal_strlit("Start of Scan"); }
                "Start of Scan"
            },
            Markers::EndOfImage => {
                proof { reveal_strlit("End of Image"); }
                "End of Image"
            },
        }
    }
}

/// What the scanner finds at a cursor position.
#[derive(Debug, Clone, Copy, PartialEq, Eq, Structural)]
pub enum Step {
    /// End of input, or the end-of-image marker.
    End,
    /// The start-of-image marker: go on at the given position.
    Skip(usize),
    /// A length-prefixed header segment with body `start..end`; the next segment starts at `end`.
    Segment(Markers, usize, usize),
    /// The start-of-scan header with body `start..end`; entropy-coded data follows.
    Scan(usize, usize),
    /// The scan fails.
    Fail(DecodeError),
}

/// What the scanner finds at `pos` in `d`.
pub open spec fn step_at(d: Seq<u8>, pos: int) -> Step {
    if d.len() - pos < 2 {
        Step::End
    } else {
        match marker_of(be16(d[pos], d[pos + 1])) {
            None => Step::Fail(DecodeError::UnknownMarker),
            Some(Markers::StartOfImage) => Step::Skip((pos + 2) as usize),
            Some(Markers::EndOfImage) => Step::End,
            Some(m) => if d.len() - pos < 4 {
                Step::Fail(DecodeError::TruncatedSegment)
            } else {
                let len = be16(d[pos + 2], d[pos + 3]);
                if len < 2 || pos + 2 + len > d.len() {
                    Step::Fail(DecodeError::TruncatedSegment)
                } else if m == Markers::StartOfScan {
                    Step::Scan((pos + 4) as usize, (pos + 2 + len) as usize)
                } else {
                    Step::Segment(m, (pos + 4) as usize, (pos + 2 + len) as usize)
                }
            },
        }
    }
}

/// Reads the segment that starts at `pos`.
pub fn read_step(data: &[u8], pos: usize) -> (r: Step)
    requires
        pos <= data@.len(),
    ensures
        r == step_at(data@, pos as int),
{
    if data.len() - pos < 2 {
        return Step::End;
    }
    let tag: u16 = data[pos] as u16 * 256 + data[pos + 1] as u16;
    let marker = match Markers::from_u16(tag) {
        Ok(m) => m,
        Err(e) => return Step::Fail(e),
    };
    match marker {
        Markers::StartOfImage => Step::Skip(pos + 2),
        Markers::EndOfImage => Step::End,
        _ => {
            if data.len() - pos < 4 {
                return Step::Fail(DecodeError::TruncatedSegment);
            }
            let len: usize = data[pos + 2] as usize * 256 + data[pos + 3] as usize;
            if len < 2 || len > data.len() - pos - 2 {
                Step::Fail(DecodeError::TruncatedSegment)
            } else if marker == Markers::StartOfScan {
                Step::Scan(pos + 4, pos + 2 + len)
            } else {
                Step::Segment(marker, pos + 4, pos + 2 + len)
            }
        },
    }
}

/// Each length-prefixed segment takes its marker and exactly the bytes that its
/// length field counts; a scan header ends where its declared length ends.
pub proof fn lemma_segment_length(d: Seq<u8>, pos: int)
    requires
        0 <= pos <= d.len() <= usize::MAX,
    ensures
        step_at(d, pos) matches Step::Segment(_, start, end) ==> start == pos + 4 && end == pos + 2
            + be16(d[pos + 2], d[pos + 3]) && pos < end <= d.len(),
        step_at(d, pos) matches Step::Scan(start, end) ==> start == pos + 4 && end == pos + 2 + be16(
            d[pos + 2],
            d[pos + 3],
        ) && pos < end <= d.len(),
        step_at(d, pos) matches Step::Skip(next) ==> next == pos + 2 <= d.len(),
{
}

/// Fewer than two bytes left: the scan ends without error.
pub proof fn lemma_short_input_ends(d: Seq<u8>, pos: int)
    requires
        0 <= pos <= d.len(),
        d.len() - pos < 2,
    ensures
        step_at(d, pos) == Step::End,
{
}

/// A tag that is not a recognised marker stops the scan with an unknown-marker error.
pub proof fn lemma_unknown_marker(d: Seq<u8>, pos: int)
    requires
        0 <= pos,
        pos + 2 <= d.len() <= usize::MAX,
        marker_of(be16(d[pos], d[pos + 1])) is None,
    ensures
        step_at(d, pos) == Step::Fail(DecodeError::UnknownMarker),
        walk(d, pos) == Walk::Failed(DecodeError::UnknownMarker),
{
}

/// A copy of `data[from..to]`.
fn copy_range(data: &[u8], from: usize, to: usize) -> (r: Vec<u8>)
    requires
        from <= to <= data@.len(),
    ensures
        r@ == data@.subrange(from as int, to as int),
{
    let mut r: Vec<u8> = Vec::new();
    let mut i: usize = from;
    while i < to
        invariant
            from <= i <= to <= data@.len(),
            r@ == data@.subrange(from as int, i as int),
        decreases to - i,
    {
        r.push(data[i]);
        i = i + 1;
        assert(r@ =~= data@.subrange(from as int, i as int));
    }
    r
}

/// A quantization table as stored: the packed class/destination byte and 64 coefficients.
#[derive(Debug)]
pub struct QuantizationTable {
    pub class_destination: u8,
    pub coefficients: Vec<u8>,
}

/// One component of a frame header.
#[derive(Debug, Clone, Copy, PartialEq, Eq, Structural)]
pub struct FrameComponent {
    pub id: u8,
    pub h_sample: u8,
    pub v_sample: u8,
    pub quant_table_id: u8,
}

/// The start-of-frame header.
#[derive(Debug)]
pub struct FrameHeader {
    pub precision: u8,
    pub height: u16,
    pub width: u16,
    pub component_count: u8,
    pub components: Vec<FrameComponent>,
}

/// One component of a scan header.
#[derive(Debug, Clone, Copy, PartialEq, Eq, Structural)]
pub struct ScanComponent {
    pub id: u8,
    pub dc_table_id: u8,
    pub ac_table_id: u8,
}

/// The start-of-scan header.
#[derive(Debug)]
pub struct ScanHeader {
    pub components: Vec<ScanComponent>,
    pub spectral_lower: u8,
    pub spectral_upper: u8,
    pub successive_approx: u8,
}

/// A Huffman table definition as stored: class `p` (0 = DC, 1 = AC), destination `t`,
/// the 16 per-length code counts, the symbols, and the code length of each symbol.
#[derive(Debug)]
pub struct DHT {
    pub p: u8,
    pub t: u8,
    pub code_lengths: Vec<u8>,
    pub total_symbols: usize,
    pub symbols: Vec<u8>,
    pub elements_lengths: Vec<u8>,
}

/// The parsed container: header records and the entropy-coded payload.
#[derive(Debug)]
pub struct JPEG {
    pub qtables: Vec<QuantizationTable>,
    pub sof: FrameHeader,
    pub sos: ScanHeader,
    pub htables: Vec<DHT>,
    pub raw_data: Vec<u8>,
}

/// The body at `s..e` holds a quantization table.
pub open spec fn quant_ok(s: int, e: int) -> bool {
    e - s >= 65
}

pub open spec fn quant_matches(q: QuantizationTable, d: Seq<u8>, s: int) -> bool {
    &&& q.class_destination == d[s]
    &&& q.coefficients@ == d.subrange(s + 1, s + 65)
}

/// The body at `s..e` holds a frame header with all its components.
pub open spec fn frame_ok(d: Seq<u8>, s: int, e: int) -> bool {
    e - s >= 6 && e - s >= 6 + 3 * d[s + 5]
}

pub open spec fn frame_matches(f: FrameHeader, d: Seq<u8>, s: int) -> bool {
    &&& f.precision == d[s]
    &&& f.height == be16(d[s + 1], d[s + 2])
    &&& f.width == be16(d[s + 3], d[s + 4])
    &&& f.component_count == d[s + 5]
    &&& f.components@.len() == d[s + 5]
    &&& forall|i: int|
        0 <= i < f.components@.len() ==> #[trigger] f.components@[i] == (FrameComponent {
            id: d[s + 6 + 3 * i],
            h_sample: (d[s + 7 + 3 * i] / 16) as u8,
            v_sample: (d[s + 7 + 3 * i] % 16) as u8,
            quant_table_id: d[s + 8 + 3 * i],
        })
}

pub open spec fn frame_empty(f: FrameHeader) -> bool {
    f.precision == 0 && f.height == 0 && f.width == 0 && f.component_count == 0
        && f.components@.len() == 0
}

/// The body at `s..e` holds a scan header with all its components.
pub open spec fn scan_ok(d: Seq<u8>, s: int, e: int) -> bool {
    e - s >= 1 && e - s >= 1 + 2 * d[s] + 3
}

pub open spec fn scan_matches(h: ScanHeader, d: Seq<u8>, s: int) -> bool {
    let n = d[s] as int;
    &&& h.components@.len() == n
    &&& forall|i: int|
        0 <= i < n ==> #[trigger] h.components@[i] == (ScanComponent {
            id: d[s + 1 + 2 * i],
            dc_table_id: (d[s + 2 + 2 * i] / 16) as u8,
            ac_table_id: (d[s + 2 + 2 * i] % 16) as u8,
        })
    &&& h.spectral_lower == d[s + 1 + 2 * n]
    &&& h.spectral_upper == d[s + 2 + 2 * n]
    &&& h.successive_approx == d[s + 3 + 2 * n]
}

pub open spec fn scan_empty(h: ScanHeader) -> bool {
    h.components@.len() == 0 && h.spectral_lower == 0 && h.spectral_upper == 0
        && h.successive_approx == 0
}

/// Sum of the per-length code counts.
pub open spec fn sum_counts(h: Seq<u8>) -> int
    decreases h.len(),
{
    if h.len() == 0 {
        0
    } else {
        sum_counts(h.drop_last()) + h.last()
    }
}

/// The code length of each symbol: `h[i]` times the length `i + 1`, shortest first.
pub open spec fn length_list(h: Seq<u8>) -> Seq<u8>
    decreases h.len(),
{
    if h.len() == 0 {
        Seq::empty()
    } else {
        length_list(h.drop_last()) + Seq::new(h.last() as nat, |j: int| h.len() as u8)
    }
}

/// The body at `s..e` holds a Huffman table definition with all its symbols.
pub open spec fn dht_ok(d: Seq<u8>, s: int, e: int) -> bool {
    e - s >= 17 && e - s >= 17 + sum_counts(d.subrange(s + 1, s + 17))
}

pub open spec fn dht_matches(t: DHT, d: Seq<u8>, s: int) -> bool {
    let h = d.subrange(s + 1, s + 17);
    &&& t.p == d[s] / 16
    &&& t.t == d[s] % 16
    &&& t.code_lengths@ == h
    &&& t.total_symbols == sum_counts(h)
    &&& t.symbols@ == d.subrange(s + 17, s + 17 + sum_counts(h))
    &&& t.elements_lengths@ == length_list(h)
}

/// The body of a segment is long enough for what its kind holds.
pub open spec fn body_ok(m: Markers, d: Seq<u8>, s: int, e: int) -> bool {
    match m {
        Markers::QuantizationTable => quant_ok(s, e),
        Markers::StartOfFrame => frame_ok(d, s, e),
        Markers::DefineHuffmanTable => dht_ok(d, s, e),
        _ => true,
    }
}

/// The end of the entropy-coded data that starts at `from`: the first end-of-image
/// marker, or the end of input.
pub open spec fn payload_end(d: Seq<u8>, from: int) -> int
    decreases d.len() - from,
{
    if from + 1 >= d.len() {
        d.len() as int
    } else if d[from] == 0xff && d[from + 1] == 0xd9 {
        from
    } else {
        payload_end(d, from + 1)
    }
}

/// The outcome of scanning a container.
pub enum Walk {
    Failed(DecodeError),
    /// The header segments in file order (marker, body start, body end), and the scan
    /// header's body if a scan was reached.
    Done(Seq<(Markers, int, int)>, Option<(int, int)>),
}

/// Scanning `d` from `pos` to the end.
pub open spec fn walk(d: Seq<u8>, pos: int) -> Walk
    decreases d.len() - pos,
{
    if !(0 <= pos <= d.len() <= usize::MAX) {
        Walk::Failed(DecodeError::TruncatedSegment)
    } else {
        match step_at(d, pos) {
            Step::End => Walk::Done(Seq::empty(), None),
            Step::Fail(e) => Walk::Failed(e),
            Step::Skip(n) => walk(d, n as int),
            Step::Segment(m, s, e) => if !body_ok(m, d, s as int, e as int) {
                Walk::Failed(DecodeError::TruncatedSegment)
            } else {
                match walk(d, e as int) {
                    Walk::Failed(x) => Walk::Failed(x),
                    Walk::Done(segs, sc) => Walk::Done(seq![(m, s as int, e as int)] + segs, sc),
                }
            },
            Step::Scan(s, e) => if !scan_ok(d, s as int, e as int) {
                Walk::Failed(DecodeError::TruncatedSegment)
            } else {
                Walk::Done(Seq::empty(), Some((s as int, e as int)))
            },
        }
    }
}

/// `segs` followed by the outcome `w`.
pub open spec fn after(segs: Seq<(Markers, int, int)>, w: Walk) -> Walk {
    match w {
        Walk::Failed(x) => Walk::Failed(x),
        Walk::Done(rest, sc) => Walk::Done(segs + rest, sc),
    }
}

/// Body starts of the segments of kind `m`, in order.
pub open spec fn bodies_of(segs: Seq<(Markers, int, int)>, m: Markers) -> Seq<int>
    decreases segs.len(),
{
    if segs.len() == 0 {
        Seq::empty()
    } else {
        let b = bodies_of(segs.drop_last(), m);
        if segs.last().0 == m {
            b.push(segs.last().1)
        } else {
            b
        }
    }
}

/// The header records are those of the segments `segs` of `d`: one quantization table and
/// one Huffman table definition per such segment in file order, and the last frame header.
pub open spec fn headers_match(
    qtables: Seq<QuantizationTable>,
    sof: FrameHeader,
    htables: Seq<DHT>,
    d: Seq<u8>,
    segs: Seq<(Markers, int, int)>,
) -> bool {
    let qs = bodies_of(segs, Markers::QuantizationTable);
    let hs = bodies_of(segs, Markers::DefineHuffmanTable);
    let fs = bodies_of(segs, Markers::StartOfFrame);
    &&& qtables.len() == qs.len()
    &&& forall|i: int| 0 <= i < qs.len() ==> quant_matches(#[trigger] qtables[i], d, qs[i])
    &&& htables.len() == hs.len()
    &&& forall|i: int| 0 <= i < hs.len() ==> dht_matches(#[trigger] htables[i], d, hs[i])
    &&& if fs.len() == 0 {
        frame_empty(sof)
    } else {
        frame_matches(sof, d, fs.last())
    }
}

/// The records of `j` are those of the segments `segs` and the scan `sc` of `d`; the
/// payload runs from the end of the scan header to the end-of-image marker.
pub open spec fn jpeg_matches(
    j: JPEG,
    d: Seq<u8>,
    segs: Seq<(Markers, int, int)>,
    sc: Option<(int, int)>,
) -> bool {
    &&& headers_match(j.qtables@, j.sof, j.htables@, d, segs)
    &&& match sc {
        None => scan_empty(j.sos) && j.raw_data@.len() == 0,
        Some((s, e)) => scan_matches(j.sos, d, s) && j.raw_data@ == d.subrange(
            e,
            payload_end(d, e),
        ),
    }
}

proof fn lemma_bodies_push(segs: Seq<(Markers, int, int)>, x: (Markers, int, int), m: Markers)
    ensures
        bodies_of(segs.push(x), m) == if x.0 == m {
            bodies_of(segs, m).push(x.1)
        } else {
            bodies_of(segs, m)
        },
{
    assert(segs.push(x).drop_last() =~= segs);
}

/// Bits of `bytes`, most significant bit first within each byte.
pub open spec fn bits_of(bytes: Seq<u8>) -> Seq<u8> {
    Seq::new(8 * bytes.len(), |i: int| (bytes[i / 8] >> ((7 - i % 8) as u8)) & 1u8)
}

impl QuantizationTable {
    /// Parses the quantization-table body `data[s..e]`.
    pub fn new(data: &[u8], s: usize, e: usize) -> (r: QuantizationTable)
        requires
            s <= e <= data@.len(),
            quant_ok(s as int, e as int),
        ensures
            quant_matches(r, data@, s as int),
    {
        QuantizationTable { class_destination: data[s], coefficients: copy_range(data, s + 1, s + 65) }
    }
}

impl FrameHeader {
    /// A frame header with no components.
    pub fn empty() -> (r: FrameHeader)
        ensures
            frame_empty(r),
    {
        FrameHeader { precision: 0, height: 0, width: 0, component_count: 0, components: Vec::new() }
    }

    /// Parses the frame-header body `data[s..e]`.
    pub fn new(data: &[u8], s: usize, e: usize) -> (r: FrameHeader)
        requires
            s <= e <= data@.len(),
            frame_ok(data@, s as int, e as int),
        ensures
            frame_matches(r, data@, s as int),
    {
        let noc = data[s + 5];
        let mut components: Vec<FrameComponent> = Vec::new();
        let mut i: usize = 0;
        while i < noc as usize
            invariant
                s <= e <= data@.len(),
                frame_ok(data@, s as int, e as int),
                noc == data@[s + 5],
                i <= noc,
                components@.len() == i,
                forall|k: int|
                    0 <= k < i ==> #[trigger] components@[k] == (FrameComponent {
                        id: data@[s + 6 + 3 * k],
                        h_sample: (data@[s + 7 + 3 * k] / 16) as u8,
                        v_sample: (data@[s + 7 + 3 * k] % 16) as u8,
                        quant_table_id: data@[s + 8 + 3 * k],
                    }),
            decreases noc - i,
        {
            let at = s + 6 + 3 * i;
            let sampling = data[at + 1];
            components.push(
                FrameComponent {
                    id: data[at],
                    h_sample: sampling / 16,
                    v_sample: sampling % 16,
                    quant_table_id: data[at + 2],
                },
            );
            i = i + 1;
        }
        FrameHeader {
            precision: data[s],
            height: data[s + 1] as u16 * 256 + data[s + 2] as u16,
            width: data[s + 3] as u16 * 256 + data[s + 4] as u16,
            component_count: noc,
            components,
        }
    }
}

impl ScanHeader {
    /// A scan header with no components.
    pub fn empty() -> (r: ScanHeader)
        ensures
            scan_empty(r),
    {
        ScanHeader {
            components: Vec::new(),
            spectral_lower: 0,
            spectral_upper: 0,
            successive_approx: 0,
        }
    }

    /// Parses the scan-header body `data[s..e]`.
    pub fn new(data: &[u8], s: usize, e: usize) -> (r: ScanHeader)
        requires
            s <= e <= data@.len(),
            scan_ok(data@, s as int, e as int),
        ensures
            scan_matches(r, data@, s as int),
    {
        let n = data[s];
        let mut components: Vec<ScanComponent> = Vec::new();
        let mut i: usize = 0;
        while i < n as usize
            invariant
                s <= e <= data@.len(),
                scan_ok(data@, s as int, e as int),
                n == data@[s as int],
                i <= n,
                components@.len() == i,
                forall|k: int|
                    0 <= k < i ==> #[trigger] components@[k] == (ScanComponent {
                        id: data@[s + 1 + 2 * k],
                        dc_table_id: (data@[s + 2 + 2 * k] / 16) as u8,
                        ac_table_id: (data@[s + 2 + 2 * k] % 16) as u8,
                    }),
            decreases n - i,
        {
            let at = s + 1 + 2 * i;
            let tables = data[at + 1];
            components.push(
                ScanComponent { id: data[at], dc_table_id: tables / 16, ac_table_id: tables % 16 },
            );
            i = i + 1;
        }
        let tail = s + 1 + 2 * n as usize;
        ScanHeader {
            components,
            spectral_lower: data[tail],
            spectral_upper: data[tail + 1],
            successive_approx: data[tail + 2],
        }
    }
}

impl DHT {
    /// Parses the Huffman-table-definition body `data[s..e]`.
    pub fn new(data: &[u8], s: usize, e: usize) -> (r: DHT)
        requires
            s <= e <= data@.len(),
            dht_ok(data@, s as int, e as int),
        ensures
            dht_matches(r, data@, s as int),
    {
        let cd = data[s];
        let code_lengths = copy_range(data, s + 1, s + 17);
        let ghost h = data@.subrange(s + 1, s + 17);
        let mut total: usize = 0;
        let mut elements_lengths: Vec<u8> = Vec::new();
        let mut i: usize = 0;
        while i < 16
            invariant
                i <= 16,
                code_lengths@ == h,
                h.len() == 16,
                total == sum_counts(h.subrange(0, i as int)),
                total <= 255 * i,
                elements_lengths@ == length_list(h.subrange(0, i as int)),
            decreases 16 - i,
        {
            let count = code_lengths[i];
            let ghost before = elements_lengths@;
            let mut j: u8 = 0;
            while j < count
                invariant
                    i < 16,
                    j <= count,
                    elements_lengths@ == before + Seq::new(j as nat, |k: int| (i + 1) as u8),
                decreases count - j,
            {
                elements_lengths.push((i + 1) as u8);
                j = j + 1;
                assert(elements_lengths@ =~= before + Seq::new(j as nat, |k: int| (i + 1) as u8));
            }
            let ghost next = h.subrange(0, i + 1);
            assert(next.drop_last() =~= h.subrange(0, i as int));
            assert(next.last() == count);
            total = total + count as usize;
            i = i + 1;
        }
        assert(h.subrange(0, 16) =~= h);
        let symbols = copy_range(data, s + 17, s + 17 + total);
        DHT {
            p: cd / 16,
            t: cd % 16,
            code_lengths,
            total_symbols: total,
            symbols,
            elements_lengths,
        }
    }
}

/// The end of the entropy-coded data that starts at `from`.
fn find_payload_end(data: &[u8], from: usize) -> (r: usize)
    requires
        from <= data@.len(),
    ensures
        r == payload_end(data@, from as int),
        from <= r <= data@.len(),
{
    let mut q: usize = from;
    while data.len() > 0 && q < data.len() - 1
        invariant
            from <= q <= data@.len(),
            payload_end(data@, q as int) == payload_end(data@, from as int),
        decreases data@.len() - q,
    {
        if data[q] == 0xff && data[q + 1] == 0xd9 {
            return q;
        }
        q = q + 1;
    }
    q = data.len();
    q
}

/// Sum of the 16 counts at `data[from..from + 16]`.
pub(crate) fn count_sum(data: &[u8], from: usize) -> (r: usize)
    requires
        from + 16 <= data@.len(),
    ensures
        r == sum_counts(data@.subrange(from as int, from + 16)),
{
    let ghost h = data@.subrange(from as int, from + 16);
    let n = data.len();
    let mut total: usize = 0;
    let mut i: usize = 0;
    while i < 16
        invariant
            i <= 16,
            n == data@.len(),
            from + 16 <= data@.len(),
            h == data@.subrange(from as int, from + 16),
            total == sum_counts(h.subrange(0, i as int)),
            total <= 255 * i,
        decreases 16 - i,
    {
        let ghost next = h.subrange(0, i + 1);
        assert(next.drop_last() =~= h.subrange(0, i as int));
        assert(from + i < data@.len());
        let count = data[from + i];
        assert(h[i as int] == count);
        assert(next.last() == count);
        total = total + count as usize;
        i = i + 1;
    }
    assert(h.subrange(0, 16) =~= h);
    total
}

impl JPEG {
    /// Scans a container and parses its header segments, up to and including the
    /// start-of-scan header, whose following bytes become the entropy-coded payload.
    pub fn new(img_data: Vec<u8>) -> (r: Result<JPEG, DecodeError>)
        ensures
            match walk(img_data@, 0) {
                Walk::Failed(e) => r == Err::<JPEG, DecodeError>(e),
                Walk::Done(segs, sc) => r matches Ok(j) && jpeg_matches(j, img_data@, segs, sc),
            },
    {
        let data = img_data.as_slice();
        let mut qtables: Vec<QuantizationTable> = Vec::new();
        let mut sof = FrameHeader::empty();
        let mut htables: Vec<DHT> = Vec::new();
        let mut pos: usize = 0;
        let ghost mut segs: Seq<(Markers, int, int)> = Seq::empty();
        proof {
            assert(segs + Seq::<(Markers, int, int)>::empty() =~= segs);
            match walk(data@, 0) {
                Walk::Done(rest, sc) => {
                    assert(segs + rest =~= rest);
                },
                _ => {},
            }
        }
        loop
            invariant
                data@ == img_data@,
                pos <= data@.len(),
                after(segs, walk(data@, pos as int)) == walk(data@, 0),
                headers_match(qtables@, sof, htables@, data@, segs),
            decreases data@.len() - pos,
        {
            let step = read_step(data, pos);
            match step {
                Step::End => {
                    assert(segs + Seq::<(Markers, int, int)>::empty() =~= segs);
                    return Ok(
                        JPEG {
                            qtables,
                            sof,
                            sos: ScanHeader::empty(),
                            htables,
                            raw_data: Vec::new(),
                        },
                    );
                },
                Step::Fail(e) => {
                    return Err(e);
                },
                Step::Skip(next) => {
                    pos = next;
                },
                Step::Segment(m, s, e) => {
                    match m {
                        Markers::QuantizationTable => {
                            if e - s < 65 {
                                return Err(DecodeError::TruncatedSegment);
                            }
                            qtables.push(QuantizationTable::new(data, s, e));
                        },
                        Markers::StartOfFrame => {
                            if e - s < 6 || (e - s - 6) / 3 < data[s + 5] as usize {
                                return Err(DecodeError::TruncatedSegment);
                            }
                            sof = FrameHeader::new(data, s, e);
                        },
                        Markers::DefineHuffmanTable => {
                            if e - s < 17 {
                                return Err(DecodeError::TruncatedSegment);
                            }
                            let total = count_sum(data, s + 1);
                            if e - s - 17 < total {
                                return Err(DecodeError::TruncatedSegment);
                            }
                            htables.push(DHT::new(data, s, e));
                        },
                        _ => {},
                    }
                    let ghost x = (m, s as int, e as int);
                    proof {
                        lemma_bodies_push(segs, x, Markers::QuantizationTable);
                        lemma_bodies_push(segs, x, Markers::DefineHuffmanTable);
                        lemma_bodies_push(segs, x, Markers::StartOfFrame);
                        match walk(data@, e as int) {
                            Walk::Done(rest, sc) => {
                                assert(segs + (seq![x] + rest) =~= segs.push(x) + rest);
                            },
                            _ => {},
                        }
                        segs = segs.push(x);
                    }
                    pos = e;
                },
                Step::Scan(s, e) => {
                    if e - s < 1 || (e - s - 1) < 2 * data[s] as usize + 3 {
                        return Err(DecodeError::TruncatedSegment);
                    }
                    let sos = ScanHeader::new(data, s, e);
                    let end = find_payload_end(data, e);
                    let raw_data = copy_range(data, e, end);
                    assert(segs + Seq::<(Markers, int, int)>::empty() =~= segs);
                    return Ok(JPEG { qtables, sof, sos, htables, raw_data });
                },
            }
        }
    }

    /// The payload as single bits, most significant bit first within each byte.
    pub fn bitstream(&self) -> (r: VecDeque<u8>)
        requires
            8 * self.raw_data@.len() <= usize::MAX,
        ensures
            r@ == bits_of(self.raw_data@),
    {
        let mut bits: VecDeque<u8> = VecDeque::new();
        let mut i: usize = 0;
        while i < self.raw_data.len()
            invariant
                i <= self.raw_data@.len(),
                8 * self.raw_data@.len() <= usize::MAX,
                bits@ == bits_of(self.raw_data@.subrange(0, i as int)),
            decreases self.raw_data@.len() - i,
        {
            let byte = self.raw_data[i];
            let mut k: u8 = 0;
            while k < 8
                invariant
                    k <= 8,
                    i < self.raw_data@.len(),
                    byte == self.raw_data@[i as int],
                    bits@.len() == 8 * i + k,
                    forall|j: int| 0 <= j < 8 * i ==> bits@[j] == #[trigger] bits_of(self.raw_data@.subrange(0, i as int))[j],
                    forall|j: int| 0 <= j < k ==> #[trigger] bits@[8 * i + j] == (byte >> ((7 - j) as u8)) & 1u8,
                decreases 8 - k,
            {
                bits.push_back((byte >> (7 - k)) & 1);
                k = k + 1;
            }
            let ghost prev = self.raw_data@.subrange(0, i as int);
            let ghost next = self.raw_data@.subrange(0, i + 1);
            assert forall|j: int| 0 <= j < 8 * (i + 1) implies bits@[j] == #[trigger] bits_of(next)[j] by {
                if j < 8 * i {
                    assert(0 <= j / 8 < i);
                    assert(next[j / 8] == prev[j / 8]);
                    assert(bits@[j] == bits_of(prev)[j]);
                } else {
                    let t = j - 8 * i;
                    assert(j / 8 == i && j % 8 == t);
                    assert(bits@[8 * i + t] == (byte >> ((7 - t) as u8)) & 1u8);
                    assert(next[i as int] == byte);
                }
            }
            assert(bits@ =~= bits_of(next));
            i = i + 1;
        }
        assert(self.raw_data@.subrange(0, self.raw_data@.len() as int) =~= self.raw_data@);
        bits
    }
}

} // verus!
