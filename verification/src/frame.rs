//! Which frames the JPEG decoder can be given. On some sampling factors it runs out of the space
//! that it set aside, and stops the program; files with such a frame are told from the others before
//! they are decoded. Headers are followed as the decoder follows them, from one to the next.
use vstd::prelude::*;

verus! {

/// A frame header: how the picture is coded, its size, and for every colour component how often it
/// is sampled across and down.
pub struct Frame {
    pub progressive: bool,
    pub width: u16,
    pub height: u16,
    pub parts: Vec<(u8, u8)>,
}

/// A frame header as a sequence.
#[verifier::ext_equal]
pub struct FrameView {
    pub progressive: bool,
    pub width: int,
    pub height: int,
    pub parts: Seq<(u8, u8)>,
}

impl View for Frame {
    type V = FrameView;

    open spec fn view(&self) -> FrameView {
        FrameView {
            progressive: self.progressive,
            width: self.width as int,
            height: self.height as int,
            parts: self.parts@,
        }
    }
}

/// A number of two bytes, the high one first.
pub open spec fn be16(bytes: Seq<u8>, i: int) -> int {
    bytes[i] * 256 + bytes[i + 1]
}

/// How often a component is sampled across and down: the two halves of a byte.
pub open spec fn halves(b: u8) -> (u8, u8) {
    ((b / 16) as u8, (b % 16) as u8)
}

/// Sampling factors that the decoder takes.
pub open spec fn usable(part: (u8, u8)) -> bool {
    (part.0 == 1 || part.0 == 2 || part.0 == 4) && 1 <= part.1 <= 4
}

/// The sampling factors of the `n` components of the frame header at `p`.
pub open spec fn parts_at(bytes: Seq<u8>, p: int, n: int) -> Seq<(u8, u8)> {
    Seq::new(n as nat, |c: int| halves(bytes[p + 11 + 3 * c]))
}

/// Whether a baseline or progressive frame header of 8-bit samples, with one to four components,
/// stands at `p`.
pub open spec fn header_at(bytes: Seq<u8>, p: int) -> bool {
    &&& 0 <= p
    &&& p + 10 <= bytes.len()
    &&& bytes[p] == 0xff
    &&& 0xc0 <= bytes[p + 1] <= 0xc2
    &&& bytes[p + 4] == 8
    &&& 1 <= bytes[p + 9] <= 4
    &&& be16(bytes, p + 2) == 8 + 3 * bytes[p + 9]
    &&& p + 10 + 3 * bytes[p + 9] <= bytes.len()
}

/// The frame header at `p`, if there is one that the decoder takes.
pub open spec fn frame_of(bytes: Seq<u8>, p: int) -> Option<FrameView> {
    let parts = parts_at(bytes, p, bytes[p + 9] as int);
    if header_at(bytes, p) && (forall|c: int| 0 <= c < parts.len() ==> usable(#[trigger] parts[c])) {
        Some(
            FrameView {
                progressive: bytes[p + 1] == 0xc2,
                width: be16(bytes, p + 7),
                height: be16(bytes, p + 5),
                parts,
            },
        )
    } else {
        None
    }
}

/// The place of the next header's code, from `pos` on: behind a byte 0xff, and neither 0xff nor zero.
pub open spec fn next_code(bytes: Seq<u8>, pos: int) -> Option<int>
    decreases bytes.len() - pos,
{
    if pos < 0 || pos + 1 >= bytes.len() {
        None
    } else if bytes[pos] == 0xff && bytes[pos + 1] != 0xff && bytes[pos + 1] != 0 {
        Some(pos + 1)
    } else {
        next_code(bytes, pos + 1)
    }
}

/// Whether Adobe's note on colours stands at the code at `i`.
pub open spec fn adobe_at(bytes: Seq<u8>, i: int) -> bool {
    &&& i + 15 <= bytes.len()
    &&& bytes[i] == 0xee
    &&& bytes[i + 3] == 0x41
    &&& bytes[i + 4] == 0x64
    &&& bytes[i + 5] == 0x6f
    &&& bytes[i + 6] == 0x62
    &&& bytes[i + 7] == 0x65
}

/// What the headers before the first scan say: where the frame header is, and whether the colours
/// are YCCK.
pub struct Seen {
    pub frame: Option<int>,
    pub ycck: bool,
}

impl Seen {
    /// What is known with the header whose code is at `i`. A frame of one component is grey, whatever
    /// was said before it.
    pub open spec fn with(self, bytes: Seq<u8>, i: int) -> Seen {
        if 0xc0 <= bytes[i] <= 0xc2 {
            Seen {
                frame: Some(i - 1),
                ycck: self.ycck && !(i + 9 <= bytes.len() && bytes[i + 8] == 1),
            }
        } else if adobe_at(bytes, i) {
            Seen { ycck: bytes[i + 14] == 2, ..self }
        } else {
            self
        }
    }
}

/// Where the header whose code is at `i` ends. Of a header with the code 0xe0 and four bytes the
/// decoder takes one byte more.
pub open spec fn header_end(bytes: Seq<u8>, i: int) -> int {
    if bytes[i] == 0xe0 && be16(bytes, i + 1) == 6 {
        i + 8
    } else {
        i + 1 + be16(bytes, i + 1)
    }
}

/// What the headers from `pos` up to the first scan add to `seen`, and where the code of that scan
/// is. None where they lead to no scan.
pub open spec fn headers_from(bytes: Seq<u8>, pos: int, seen: Seen) -> Option<(Seen, int)>
    decreases bytes.len() - pos,
    when 0 <= pos via headers_from_decreases
{
    match next_code(bytes, pos) {
        Some(i) => if i + 4 > bytes.len() {
            None
        } else if bytes[i] == 0xda {
            Some((seen, i))
        } else if be16(bytes, i + 1) < 2 || header_end(bytes, i) > bytes.len() {
            None
        } else {
            headers_from(bytes, header_end(bytes, i), seen.with(bytes, i))
        },
        None => None,
    }
}

#[via_fn]
proof fn headers_from_decreases(bytes: Seq<u8>, pos: int, seen: Seen) {
    lemma_next_code(bytes, pos);
}

proof fn lemma_next_code(bytes: Seq<u8>, pos: int)
    requires
        0 <= pos,
    ensures
        next_code(bytes, pos) matches Some(i) ==> pos < i < bytes.len(),
    decreases bytes.len() - pos,
{
    if pos + 1 < bytes.len() {
        lemma_next_code(bytes, pos + 1);
    }
}

/// The headers of a file up to the first scan.
pub open spec fn headers_of(bytes: Seq<u8>) -> Option<(Seen, int)> {
    if bytes.len() >= 2 && bytes[0] == 0xff && bytes[1] == 0xd8 {
        headers_from(bytes, 2, Seen { frame: None, ycck: false })
    } else {
        None
    }
}

impl FrameView {
    /// The most often that one of the first `k` components is sampled across.
    pub open spec fn across(self, k: int) -> int
        decreases k,
    {
        if k <= 0 {
            1
        } else if self.parts[k - 1].0 > self.across(k - 1) {
            self.parts[k - 1].0 as int
        } else {
            self.across(k - 1)
        }
    }

    /// The most often that one of the first `k` components is sampled down.
    pub open spec fn down(self, k: int) -> int
        decreases k,
    {
        if k <= 0 {
            1
        } else if self.parts[k - 1].1 > self.down(k - 1) {
            self.parts[k - 1].1 as int
        } else {
            self.down(k - 1)
        }
    }

    /// How many units cover a row, where a unit is `8 * h` pixels wide.
    pub open spec fn units(self, h: int) -> int {
        (self.width + 8 * h - 1) / (8 * h)
    }

    /// The length of a component's rows, as the decoder sets them up: by the factors of the
    /// components up to it.
    pub open spec fn stride(self, c: int) -> int {
        8 * (self.parts[c].0 * self.units(self.across(c + 1)))
    }

    /// The length of a component's rows by the factors of all components.
    pub open spec fn full_stride(self, c: int) -> int {
        8 * (self.parts[c].0 * self.units(self.across(self.parts.len() as int)))
    }

    /// Whether a component is doubled in both directions.
    pub open spec fn halved(self, c: int) -> bool {
        let n = self.parts.len() as int;
        self.across(n) / (self.parts[c].0 as int) == 2 && self.down(n) / (self.parts[c].1 as int)
            == 2
    }

    /// A row that is doubled in both directions fits in a row of the first component twice.
    pub open spec fn rows_fit(self) -> bool {
        forall|c: int|
            0 <= c < self.parts.len() && #[trigger] self.halved(c) ==> 2 * self.stride(c)
                <= self.stride(0)
    }

    /// How many rows of units cover the picture.
    pub open spec fn bands(self) -> int {
        let v = 8 * self.down(self.parts.len() as int);
        (self.height + v - 1) / v
    }

    /// Where the band `i` of a component starts, as the decoder counts.
    pub open spec fn band(self, c: int, i: int) -> int {
        8 * (i * (self.stride(c) * self.parts[c].1))
    }

    /// How much space there is for a component: as much as the factors of all components ask for.
    pub open spec fn space(self, c: int) -> int {
        8 * (self.bands() * (self.full_stride(c) * self.parts[c].1))
    }

    /// The eight rows of every band that starts within a component's space fit in it.
    pub open spec fn bands_fit(self, c: int) -> bool {
        forall|i: int|
            0 <= i < self.bands() && #[trigger] self.band(c, i) < self.space(c) ==> self.band(c, i)
                + 8 * self.stride(c) <= self.space(c)
    }

    /// Whether the decoder gets through such a frame, where `split` tells whether it comes in several
    /// scans, and `ycck` whether its colours are said to be YCCK.
    pub open spec fn sound(self, split: bool, ycck: bool) -> bool {
        &&& self.progressive && self.parts.len() <= 2 ==> !ycck
        &&& self.progressive || split ==> self.rows_fit()
        &&& !self.progressive && split ==> forall|c: int|
            0 <= c < self.parts.len() ==> #[trigger] self.bands_fit(c)
    }
}

/// Whether the decoder gets through the frame of a file. The frame comes in several scans if the
/// first has not all of its components. Only headers are looked at: a baseline file in several scans
/// whose rows or bands do not fit is refused even where its data is damaged or ends so early that the
/// decoder would give up before it comes to them, and fill the rest of the picture.
pub open spec fn frame_ok(bytes: Seq<u8>) -> bool {
    match headers_of(bytes) {
        Some((Seen { frame: Some(p), ycck }, i)) => match frame_of(bytes, p) {
            Some(f) => f.sound(bytes[i + 3] != f.parts.len(), ycck),
            None => true,
        },
        _ => true,
    }
}

fn number_at(bytes: &[u8], i: usize) -> (r: u16)
    requires
        i + 1 < bytes@.len(),
    ensures
        r == be16(bytes@, i as int),
{
    bytes[i] as u16 * 256 + bytes[i + 1] as u16
}

/// The frame header at `p`, if there is one that the decoder takes.
fn read_frame(bytes: &[u8], p: usize) -> (r: Option<Frame>)
    requires
        p < bytes@.len(),
    ensures
        match r {
            Some(f) => frame_of(bytes@, p as int) == Some(f@),
            None => frame_of(bytes@, p as int) is None,
        },
{
    let left: usize = bytes.len() - p;
    if left < 10 || bytes[p] != 0xff || bytes[p + 1] < 0xc0 || bytes[p + 1] > 0xc2 || bytes[p + 4]
        != 8 || bytes[p + 9] < 1 || bytes[p + 9] > 4 {
        return None;
    }
    let n: usize = bytes[p + 9] as usize;
    if number_at(bytes, p + 2) as usize != 8 + 3 * n || left < 10 + 3 * n {
        return None;
    }
    let ghost all = parts_at(bytes@, p as int, n as int);
    let mut parts: Vec<(u8, u8)> = Vec::new();
    let mut c: usize = 0;
    while c < n
        invariant
            c <= n,
            1 <= n <= 4,
            p + 10 + 3 * n <= bytes@.len() <= usize::MAX,
            bytes@[p + 9] == n,
            all == parts_at(bytes@, p as int, n as int),
            parts@ == all.take(c as int),
            forall|k: int| 0 <= k < c ==> usable(#[trigger] all[k]),
        decreases n - c,
    {
        let b: u8 = bytes[p + 11 + 3 * c];
        let across: u8 = b / 16;
        let down: u8 = b % 16;
        assert(all[c as int] == (across, down));
        if !((across == 1 || across == 2 || across == 4) && 1 <= down && down <= 4) {
            assert(!usable(all[c as int]));
            return None;
        }
        parts.push((across, down));
        assert(parts@ =~= all.take(c + 1));
        c += 1;
    }
    assert(parts@ =~= all);
    Some(
        Frame {
            progressive: bytes[p + 1] == 0xc2,
            width: number_at(bytes, p + 7),
            height: number_at(bytes, p + 5),
            parts,
        },
    )
}

proof fn lemma_factors(f: FrameView, k: int)
    requires
        0 <= k <= f.parts.len(),
        forall|c: int| 0 <= c < f.parts.len() ==> usable(#[trigger] f.parts[c]),
    ensures
        1 <= f.across(k) <= 4,
        1 <= f.down(k) <= 4,
    decreases k,
{
    if k > 0 {
        lemma_factors(f, k - 1);
        assert(usable(f.parts[k - 1]));
    }
}

impl Frame {
    spec fn valid(&self) -> bool {
        &&& self.parts@.len() <= 4
        &&& forall|c: int| 0 <= c < self.parts@.len() ==> usable(#[trigger] self.parts@[c])
    }

    /// The most often that one of the first `k` components is sampled across, and down.
    fn most(&self, k: usize) -> (r: (u32, u32))
        requires
            self.valid(),
            k <= self.parts@.len(),
        ensures
            r.0 == self@.across(k as int),
            r.1 == self@.down(k as int),
            1 <= r.0 <= 4,
            1 <= r.1 <= 4,
    {
        let mut across: u32 = 1;
        let mut down: u32 = 1;
        let mut i: usize = 0;
        while i < k
            invariant
                i <= k,
                k <= self.parts@.len(),
                across == self@.across(i as int),
                down == self@.down(i as int),
            decreases k - i,
        {
            let part = self.parts[i];
            if part.0 as u32 > across {
                across = part.0 as u32;
            }
            if part.1 as u32 > down {
                down = part.1 as u32;
            }
            i += 1;
        }
        proof {
            lemma_factors(self@, k as int);
        }
        (across, down)
    }

    /// The length of a component's rows where a unit is `8 * h` pixels wide.
    fn row(&self, c: usize, h: u32) -> (r: u32)
        requires
            self.valid(),
            c < self.parts@.len(),
            1 <= h <= 4,
        ensures
            r == 8 * (self@.parts[c as int].0 * self@.units(h as int)),
            r <= 0x40_0000,
    {
        let units: u32 = (self.width as u32 + 8 * h - 1) / (8 * h);
        let across: u32 = self.parts[c].0 as u32;
        assert(usable(self.parts@[c as int]));
        assert(across * units <= 4 * 0x1_0000 && units <= 0x1_0000) by (nonlinear_arith)
            requires
                across <= 4,
                h >= 1,
                units == (self.width as u32 + 8 * h - 1) / (8 * h as int),
                self.width <= 0xffff,
                h <= 4,
        ;
        8 * (across * units)
    }

    fn rows_fit(&self) -> (r: bool)
        requires
            self.valid(),
        ensures
            r == self@.rows_fit(),
    {
        let n: usize = self.parts.len();
        let (across, down): (u32, u32) = self.most(n);
        let mut c: usize = 0;
        while c < n
            invariant
                c <= n,
                n == self.parts@.len(),
                self.valid(),
                across == self@.across(n as int),
                down == self@.down(n as int),
                forall|k: int|
                    0 <= k < c && #[trigger] self@.halved(k) ==> 2 * self@.stride(k)
                        <= self@.stride(0),
            decreases n - c,
        {
            assert(usable(self.parts@[c as int]));
            let part = self.parts[c];
            if across / part.0 as u32 == 2 && down / part.1 as u32 == 2 {
                let first: u32 = self.row(0, self.most(1).0);
                let row: u32 = self.row(c, self.most(c + 1).0);
                assert(self@.halved(c as int));
                if row > first || row > first - row {
                    return false;
                }
            }
            c += 1;
        }
        true
    }

    fn bands_fit(&self, c: usize) -> (r: bool)
        requires
            self.valid(),
            c < self.parts@.len(),
        ensures
            r == self@.bands_fit(c as int),
    {
        let n: usize = self.parts.len();
        let (across, down): (u32, u32) = self.most(n);
        let stride: u64 = self.row(c, self.most(c + 1).0) as u64;
        let full: u64 = self.row(c, across) as u64;
        assert(usable(self.parts@[c as int]));
        let v: u64 = self.parts[c].1 as u64;
        let bands: u64 = (self.height as u64 + 8 * down as u64 - 1) / (8 * down as u64);
        assert(bands <= 0x1_0000) by (nonlinear_arith)
            requires
                1 <= down <= 4,
                self.height <= 0xffff,
                bands == (self.height as u64 + 8 * down as u64 - 1) / (8 * down as int),
        ;
        assert(0 <= full * v <= 0x100_0000 && 0 <= stride * v <= 0x100_0000) by (nonlinear_arith)
            requires
                full <= 0x40_0000,
                stride <= 0x40_0000,
                v <= 4,
        ;
        let tall: u64 = stride * v;
        let whole: u64 = full * v;
        assert(0 <= bands * whole <= 0x1_0000 * 0x100_0000) by (nonlinear_arith)
            requires
                bands <= 0x1_0000,
                whole <= 0x100_0000,
        ;
        let space: u64 = 8 * (bands * whole);
        let mut i: u64 = 0;
        while i < bands
            invariant
                i <= bands,
                bands <= 0x1_0000,
                tall <= 0x100_0000,
                stride <= 0x40_0000,
                bands == self@.bands(),
                space == self@.space(c as int),
                stride == self@.stride(c as int),
                tall == self@.stride(c as int) * self@.parts[c as int].1,
                forall|k: int|
                    0 <= k < i && #[trigger] self@.band(c as int, k) < self@.space(c as int)
                        ==> self@.band(c as int, k) + 8 * self@.stride(c as int) <= self@.space(
                        c as int,
                    ),
            decreases bands - i,
        {
            assert(0 <= i * tall <= 0x1_0000 * 0x100_0000) by (nonlinear_arith)
                requires
                    i <= 0x1_0000,
                    tall <= 0x100_0000,
            ;
            let start: u64 = 8 * (i * tall);
            assert(start == self@.band(c as int, i as int));
            if start < space && start + 8 * stride > space {
                return false;
            }
            i += 1;
        }
        true
    }

    fn all_bands_fit(&self) -> (r: bool)
        requires
            self.valid(),
        ensures
            r == (forall|c: int| 0 <= c < self@.parts.len() ==> #[trigger] self@.bands_fit(c)),
    {
        let mut c: usize = 0;
        while c < self.parts.len()
            invariant
                c <= self.parts@.len(),
                self.valid(),
                forall|k: int| 0 <= k < c ==> #[trigger] self@.bands_fit(k),
            decreases self.parts.len() - c,
        {
            if !self.bands_fit(c) {
                assert(!self@.bands_fit(c as int));
                return false;
            }
            c += 1;
        }
        true
    }

    /// Whether the decoder gets through such a frame.
    fn is_sound(&self, split: bool, ycck: bool) -> (r: bool)
        requires
            self.valid(),
        ensures
            r == self@.sound(split, ycck),
    {
        if self.progressive {
            !(self.parts.len() <= 2 && ycck) && self.rows_fit()
        } else {
            !split || self.rows_fit() && self.all_bands_fit()
        }
    }
}

/// The place of the next header's code, from `pos` on.
fn find_code(bytes: &[u8], pos: usize) -> (r: Option<usize>)
    ensures
        match r {
            Some(i) => next_code(bytes@, pos as int) == Some(i as int) && pos < i < bytes@.len(),
            None => next_code(bytes@, pos as int) is None,
        },
{
    let n: usize = bytes.len();
    if pos >= n {
        return None;
    }
    let mut k: usize = pos;
    while k < n - 1
        invariant
            pos <= k < n,
            n == bytes@.len(),
            next_code(bytes@, pos as int) == next_code(bytes@, k as int),
        decreases n - k,
    {
        if bytes[k] == 0xff && bytes[k + 1] != 0xff && bytes[k + 1] != 0 {
            return Some(k + 1);
        }
        k += 1;
    }
    None
}

/// Where the frame header of a file is, whether its colours are YCCK, and how many components its
/// first scan has. None where there is no frame header before a scan.
fn find_frame(bytes: &[u8]) -> (r: Option<(usize, bool, u8)>)
    ensures
        match (r, headers_of(bytes@)) {
            (Some((p, ycck, n)), Some((seen, i))) => p < bytes@.len() && seen.frame == Some(p as int)
                && seen.ycck == ycck && bytes@[i + 3] == n,
            (None, Some((seen, _))) => seen.frame is None,
            (Some(_), None) => false,
            (None, None) => true,
        },
{
    let n: usize = bytes.len();
    if n < 2 || bytes[0] != 0xff || bytes[1] != 0xd8 {
        return None;
    }
    let mut frame: Option<usize> = None;
    let mut ycck = false;
    let mut pos: usize = 2;
    let ghost mut seen = Seen { frame: None, ycck: false };
    while pos < n
        invariant
            n == bytes@.len(),
            2 <= pos,
            headers_of(bytes@) == headers_from(bytes@, pos as int, seen),
            seen.ycck == ycck,
            match frame {
                Some(p) => seen.frame == Some(p as int) && p < n,
                None => seen.frame is None,
            },
        decreases n - pos,
    {
        let i: usize = match find_code(bytes, pos) {
            Some(i) => i,
            None => {
                return None;
            },
        };
        if n - i < 4 {
            return None;
        }
        if bytes[i] == 0xda {
            return match frame {
                Some(p) => Some((p, ycck, bytes[i + 3])),
                None => None,
            };
        }
        let len: usize = number_at(bytes, i + 1) as usize;
        if len < 2 {
            return None;
        }
        proof {
            seen = seen.with(bytes@, i as int);
        }
        if bytes[i] >= 0xc0 && bytes[i] <= 0xc2 {
            frame = Some(i - 1);
            ycck = ycck && !(n - i >= 9 && bytes[i + 8] == 1);
        } else if n - i >= 15 && bytes[i] == 0xee && bytes[i + 3] == 0x41 && bytes[i + 4] == 0x64
            && bytes[i + 5] == 0x6f && bytes[i + 6] == 0x62 && bytes[i + 7] == 0x65 {
            ycck = bytes[i + 14] == 2;
        }
        let taken: usize = if bytes[i] == 0xe0 && len == 6 {
            7
        } else {
            len
        };
        assert(i + 1 + taken == header_end(bytes@, i as int));
        if taken >= n - i - 1 {
            assert(headers_from(bytes@, n as int, seen) is None);
            return None;
        }
        pos = i + 1 + taken;
    }
    None
}

/// Whether the decoder gets through the frame of a file.
pub fn frame_decodes(bytes: &[u8]) -> (r: bool)
    ensures
        r == frame_ok(bytes@),
{
    match find_frame(bytes) {
        Some((p, ycck, n)) => match read_frame(bytes, p) {
            Some(f) => f.is_sound(n as usize != f.parts.len(), ycck),
            None => true,
        },
        None => true,
    }
}

/// The usual frames pass: those in which no component is sampled more often across than the first,
/// and which are not of one or two components in YCCK.
pub proof fn law_usual_frames_pass(f: FrameView, split: bool, ycck: bool)
    requires
        f.parts.len() > 0,
        0 <= f.width,
        0 <= f.height,
        forall|c: int| 0 <= c < f.parts.len() ==> usable(#[trigger] f.parts[c]),
        forall|c: int| 0 <= c < f.parts.len() ==> (#[trigger] f.parts[c]).0 <= f.parts[0].0,
        f.parts.len() <= 2 ==> !ycck,
    ensures
        f.sound(split, ycck),
{
    lemma_first_widest(f);
}

/// A frame in one baseline scan passes, whatever its factors.
pub proof fn law_one_baseline_scan_passes(f: FrameView, ycck: bool)
    requires
        !f.progressive,
    ensures
        f.sound(false, ycck),
{
}

proof fn lemma_first_widest(f: FrameView)
    requires
        f.parts.len() > 0,
        0 <= f.width,
        0 <= f.height,
        forall|c: int| 0 <= c < f.parts.len() ==> usable(#[trigger] f.parts[c]),
        forall|c: int| 0 <= c < f.parts.len() ==> (#[trigger] f.parts[c]).0 <= f.parts[0].0,
    ensures
        f.rows_fit(),
        forall|c: int| 0 <= c < f.parts.len() ==> #[trigger] f.bands_fit(c),
{
    let n = f.parts.len() as int;
    assert(usable(f.parts[0]));
    assert forall|k: int| 1 <= k <= n implies #[trigger] f.across(k) == f.parts[0].0 by {
        lemma_across_first(f, k);
    }
    assert(f.across(n) == f.parts[0].0);
    assert forall|c: int| 0 <= c < n && #[trigger] f.halved(c) implies 2 * f.stride(c) <= f.stride(
        0,
    ) by {
        assert(usable(f.parts[c]));
        assert(f.across(c + 1) == f.parts[0].0);
        assert(f.across(1) == f.parts[0].0);
        let u = f.units(f.parts[0].0 as int);
        let a = f.parts[c].0 as int;
        let b = f.parts[0].0 as int;
        assert(b / a == 2 ==> b == 2 * a) by {
            if a == 1 {
            } else if a == 2 {
            } else {
            }
        }
        assert(2 * (8 * (a * u)) == 8 * (b * u)) by (nonlinear_arith)
            requires
                b == 2 * a,
        ;
    }
    assert forall|c: int| 0 <= c < n implies #[trigger] f.bands_fit(c) by {
        assert(usable(f.parts[c]));
        assert(f.across(c + 1) == f.parts[0].0);
        assert(f.stride(c) == f.full_stride(c));
        let s = f.stride(c);
        let v = f.parts[c].1 as int;
        let m = f.bands();
        lemma_factors(f, n);
        lemma_stride_positive(f, c);
        assert forall|i: int| 0 <= i < m && #[trigger] f.band(c, i) < f.space(c) implies f.band(c, i)
            + 8 * s <= f.space(c) by {
            assert(8 * (i * (s * v)) + 8 * s <= 8 * (m * (s * v))) by (nonlinear_arith)
                requires
                    0 <= i < m,
                    s >= 0,
                    v >= 1,
            ;
        }
    }
}

proof fn lemma_stride_positive(f: FrameView, c: int)
    requires
        0 <= c < f.parts.len(),
        0 <= f.width,
        forall|k: int| 0 <= k < f.parts.len() ==> usable(#[trigger] f.parts[k]),
    ensures
        f.stride(c) >= 0,
{
    lemma_factors(f, c + 1);
    let h = f.across(c + 1);
    let u = f.units(h);
    assert(u >= 0) by (nonlinear_arith)
        requires
            u == (f.width + 8 * h - 1) / (8 * h),
            h >= 1,
            f.width >= 0,
    ;
    let a = f.parts[c].0 as int;
    assert(a * u >= 0) by (nonlinear_arith)
        requires
            a >= 0,
            u >= 0,
    ;
}

proof fn lemma_across_first(f: FrameView, k: int)
    requires
        1 <= k <= f.parts.len(),
        usable(f.parts[0]),
        forall|c: int| 0 <= c < f.parts.len() ==> (#[trigger] f.parts[c]).0 <= f.parts[0].0,
    ensures
        f.across(k) == f.parts[0].0,
    decreases k,
{
    if k > 1 {
        lemma_across_first(f, k - 1);
        assert(f.parts[k - 1].0 <= f.parts[0].0);
    } else {
        assert(f.across(0) == 1);
    }
}

/// A frame header tells, in this order: its code, its length, the bits of a sample, height, width,
/// how many components there are, and three bytes for each, the second of which holds how often it is
/// sampled, across in the high half and down in the low one.
pub proof fn law_what_a_frame_header_tells(bytes: Seq<u8>, p: int, c: int)
    ensures
        frame_of(bytes, p) matches Some(f) ==> {
            &&& bytes[p] == 0xff && 0xc0 <= bytes[p + 1] <= 0xc2
            &&& f.progressive <==> bytes[p + 1] == 0xc2
            &&& 256 * bytes[p + 2] + bytes[p + 3] == 8 + 3 * bytes[p + 9]
            &&& bytes[p + 4] == 8
            &&& f.height == 256 * bytes[p + 5] + bytes[p + 6]
            &&& f.width == 256 * bytes[p + 7] + bytes[p + 8]
            &&& f.parts.len() == bytes[p + 9]
            &&& 1 <= bytes[p + 9] <= 4
            &&& 0 <= c < bytes[p + 9] ==> {
                let (h, v) = f.parts[c];
                &&& 16 * h + v == bytes[p + 11 + 3 * c]
                &&& h == 1 || h == 2 || h == 4
                &&& v == 1 || v == 2 || v == 3 || v == 4
            }
        },
{
    if let Some(f) = frame_of(bytes, p) {
        if 0 <= c < bytes[p + 9] {
            assert(usable(f.parts[c]));
        }
    }
}

/// Every header that is written so is taken.
pub proof fn law_which_frame_headers_are_taken(bytes: Seq<u8>, p: int)
    requires
        0 <= p,
        p + 10 <= bytes.len(),
        bytes[p] == 0xff,
        bytes[p + 1] == 0xc0 || bytes[p + 1] == 0xc1 || bytes[p + 1] == 0xc2,
        256 * bytes[p + 2] + bytes[p + 3] == 8 + 3 * bytes[p + 9],
        bytes[p + 4] == 8,
        1 <= bytes[p + 9] <= 4,
        p + 10 + 3 * bytes[p + 9] <= bytes.len(),
        forall|c: int| 0 <= c < bytes[p + 9] ==> usable(halves(#[trigger] bytes[p + 11 + 3 * c])),
    ensures
        frame_of(bytes, p) is Some,
{
    let parts = parts_at(bytes, p, bytes[p + 9] as int);
    assert forall|c: int| 0 <= c < parts.len() implies usable(#[trigger] parts[c]) by {
        assert(usable(halves(bytes[p + 11 + 3 * c])));
    }
}

/// The code of a header is the first byte other than 0xff and zero behind a byte 0xff.
pub proof fn law_first_code_is_next(bytes: Seq<u8>, pos: int, k: int)
    requires
        0 <= pos <= k,
        k + 1 < bytes.len(),
        bytes[k] == 0xff,
        bytes[k + 1] != 0xff,
        bytes[k + 1] != 0,
        forall|j: int|
            pos <= j < k ==> !(#[trigger] bytes[j] == 0xff && bytes[j + 1] != 0xff && bytes[j + 1]
                != 0),
    ensures
        next_code(bytes, pos) == Some(k + 1),
    decreases k - pos,
{
    if pos < k {
        assert(!(bytes[pos] == 0xff && bytes[pos + 1] != 0xff && bytes[pos + 1] != 0));
        law_first_code_is_next(bytes, pos + 1, k);
    }
}

/// Headers follow one another by their lengths up to the code 0xda of the first scan. Of a header
/// with the code 0xe0 and the length 6 the decoder takes a byte more.
pub proof fn law_headers_follow_by_their_lengths(bytes: Seq<u8>, pos: int, seen: Seen, i: int)
    requires
        0 <= pos,
        next_code(bytes, pos) == Some(i),
        i + 4 <= bytes.len(),
    ensures
        ({
            let n = 256 * bytes[i + 1] + bytes[i + 2];
            let end = if bytes[i] == 0xe0 && n == 6 {
                i + 8
            } else {
                i + 1 + n
            };
            &&& bytes[i] == 0xda ==> headers_from(bytes, pos, seen) == Some((seen, i))
            &&& bytes[i] != 0xda && n >= 2 && end <= bytes.len() ==> headers_from(bytes, pos, seen)
                == headers_from(bytes, end, seen.with(bytes, i))
            &&& bytes[i] != 0xda && (n < 2 || end > bytes.len()) ==> headers_from(bytes, pos, seen)
                is None
        }),
{
    let n = 256 * bytes[i + 1] + bytes[i + 2];
    assert(be16(bytes, i + 1) == n) by {
        assert(i + 1 + 1 == i + 2);
    }
    lemma_next_code(bytes, pos);
    if bytes[i] != 0xda && n >= 2 && header_end(bytes, i) <= bytes.len() {
        assert(headers_from(bytes, pos, seen) == headers_from(
            bytes,
            header_end(bytes, i),
            seen.with(bytes, i),
        ));
    }
}

/// Of the headers, those of frames and Adobe's note on colours matter: the last frame counts, and
/// the colours are YCCK where the note says 2, unless a frame of one component follows.
pub proof fn law_headers_that_matter(bytes: Seq<u8>, i: int, seen: Seen)
    requires
        0 <= i,
        i + 15 <= bytes.len(),
    ensures
        ({
            let frame = bytes[i] == 0xc0 || bytes[i] == 0xc1 || bytes[i] == 0xc2;
            let adobe = bytes[i] == 0xee && bytes.subrange(i + 3, i + 8) == seq![
                0x41u8,
                0x64,
                0x6f,
                0x62,
                0x65,
            ];
            let after = seen.with(bytes, i);
            &&& frame ==> after.frame == Some(i - 1) && (after.ycck <==> seen.ycck && bytes[i + 8] != 1)
            &&& adobe ==> after.frame == seen.frame && (after.ycck <==> bytes[i + 14] == 2)
            &&& !frame && !adobe ==> after == seen
        }),
{
    let t = bytes.subrange(i + 3, i + 8);
    let a = seq![0x41u8, 0x64, 0x6f, 0x62, 0x65];
    assert(t[0] == bytes[i + 3] && t[1] == bytes[i + 4] && t[2] == bytes[i + 5] && t[3] == bytes[i + 6]
        && t[4] == bytes[i + 7]);
    assert(a[0] == 0x41 && a[1] == 0x64 && a[2] == 0x6f && a[3] == 0x62 && a[4] == 0x65);
    if bytes[i + 3] == 0x41 && bytes[i + 4] == 0x64 && bytes[i + 5] == 0x6f && bytes[i + 6] == 0x62
        && bytes[i + 7] == 0x65 {
        assert(t =~= a);
    }
}

/// Only a file that starts as a JPEG does has headers, which start behind its first two bytes.
pub proof fn law_headers_of_a_file(bytes: Seq<u8>)
    ensures
        bytes.len() >= 2 && bytes[0] == 0xff && bytes[1] == 0xd8 ==> headers_of(bytes) == headers_from(
            bytes,
            2,
            (Seen { frame: None, ycck: false }),
        ),
        !(bytes.len() >= 2 && bytes[0] == 0xff && bytes[1] == 0xd8) ==> headers_of(bytes) is None
            && frame_ok(bytes),
{
}

/// A file passes if it has no frame that the decoder takes, or one that the decoder gets through. The
/// frame is in several scans where the first has another number of components.
pub proof fn law_frames_that_pass(bytes: Seq<u8>, p: int, ycck: bool, i: int)
    requires
        headers_of(bytes) == Some((Seen { frame: Some(p), ycck }, i)),
    ensures
        frame_of(bytes, p) is None ==> frame_ok(bytes),
        frame_of(bytes, p) matches Some(f) ==> (frame_ok(bytes) <==> f.sound(
            bytes[i + 3] != f.parts.len(),
            ycck,
        )),
{
}

/// The most often that a component is sampled: no component is sampled more often, and one is as
/// often, or none more than once.
pub proof fn law_most_samples(f: FrameView, k: int, c: int)
    requires
        0 <= c < k <= f.parts.len(),
    ensures
        f.across(k) >= f.parts[c].0,
        f.down(k) >= f.parts[c].1,
        f.across(k) == 1 || exists|j: int| 0 <= j < k && f.across(k) == (#[trigger] f.parts[j]).0,
        f.down(k) == 1 || exists|j: int| 0 <= j < k && f.down(k) == (#[trigger] f.parts[j]).1,
    decreases k,
{
    if k > 1 {
        if c < k - 1 {
            law_most_samples(f, k - 1, c);
        } else {
            law_most_samples(f, k - 1, 0);
        }
    } else {
        assert(f.across(0) == 1 && f.down(0) == 1);
    }
    assert(f.across(k) == f.parts[k - 1].0 || f.across(k) == f.across(k - 1));
    assert(f.down(k) == f.parts[k - 1].1 || f.down(k) == f.down(k - 1));
}

/// Units cover a row, and no fewer do; bands cover the picture, and no fewer do.
pub proof fn law_units_and_bands_cover(f: FrameView, h: int)
    requires
        0 <= f.width,
        0 <= f.height,
        h >= 1,
        f.down(f.parts.len() as int) >= 1,
    ensures
        f.units(h) * (8 * h) >= f.width,
        f.width > 0 ==> (f.units(h) - 1) * (8 * h) < f.width,
        f.bands() * (8 * f.down(f.parts.len() as int)) >= f.height,
        f.height > 0 ==> (f.bands() - 1) * (8 * f.down(f.parts.len() as int)) < f.height,
{
    lemma_cover(f.width, 8 * h);
    lemma_cover(f.height, 8 * f.down(f.parts.len() as int));
}

proof fn lemma_cover(n: int, v: int)
    requires
        n >= 0,
        v >= 1,
    ensures
        ((n + v - 1) / v) * v >= n,
        n > 0 ==> ((n + v - 1) / v - 1) * v < n,
{
    let q = (n + v - 1) / v;
    assert(q * v <= n + v - 1 && n + v - 1 < q * v + v) by (nonlinear_arith)
        requires
            q == (n + v - 1) / v,
            v >= 1,
    ;
    assert((q - 1) * v == q * v - v) by (nonlinear_arith);
}

/// A frame that is not in one baseline scan is refused where a row that is doubled both ways is longer
/// than half of the first component's.
pub proof fn law_frames_without_room(f: FrameView, split: bool, ycck: bool, c: int)
    requires
        0 <= c < f.parts.len(),
        f.progressive || split,
        f.across(f.parts.len() as int) / (f.parts[c].0 as int) == 2,
        f.down(f.parts.len() as int) / (f.parts[c].1 as int) == 2,
        2 * (8 * (f.parts[c].0 * f.units(f.across(c + 1)))) > 8 * (f.parts[0].0 * f.units(f.across(1))),
    ensures
        !f.sound(split, ycck),
{
    assert(f.halved(c));
}

} // verus!
