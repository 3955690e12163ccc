use vstd::prelude::*;

verus! {

/// The 18-byte header at the start of a TGA file. Multi-byte fields are stored
/// little-endian.
#[derive(Clone, Copy, Debug, PartialEq, Eq, Structural)]
pub struct TGAHeader {
    pub idlength: u8,
    pub colormaptype: u8,
    pub datatypecode: u8,
    pub colormaporigin: u16,
    pub colormaplength: u16,
    pub colormapdepth: u8,
    pub x_origin: u16,
    pub y_origin: u16,
    pub width: u16,
    pub height: u16,
    pub bitsperpixel: u8,
    pub imagedescriptor: u8,
}

/// Length of the header in bytes.
pub const TGA_HEADER_LEN: usize = 18;

/// The two little-endian bytes of `v`.
pub open spec fn u16_le(v: u16) -> Seq<u8> {
    seq![(v % 256) as u8, (v / 256) as u8]
}

/// The little-endian value of the two bytes of `s` at `i`.
pub open spec fn read_u16_le(s: Seq<u8>, i: int) -> u16 {
    (s[i] + 256 * s[i + 1]) as u16
}

/// The 18 bytes of a header, in file order.
pub open spec fn header_bytes(h: TGAHeader) -> Seq<u8> {
    seq![h.idlength, h.colormaptype, h.datatypecode] + u16_le(h.colormaporigin)
        + u16_le(h.colormaplength) + seq![h.colormapdepth] + u16_le(h.x_origin)
        + u16_le(h.y_origin) + u16_le(h.width) + u16_le(h.height)
        + seq![h.bitsperpixel, h.imagedescriptor]
}

/// The header held by the first 18 bytes of `s`.
pub open spec fn parse_header(s: Seq<u8>) -> TGAHeader {
    TGAHeader {
        idlength: s[0],
        colormaptype: s[1],
        datatypecode: s[2],
        colormaporigin: read_u16_le(s, 3),
        colormaplength: read_u16_le(s, 5),
        colormapdepth: s[7],
        x_origin: read_u16_le(s, 8),
        y_origin: read_u16_le(s, 10),
        width: read_u16_le(s, 12),
        height: read_u16_le(s, 14),
        bitsperpixel: s[16],
        imagedescriptor: s[17],
    }
}

fn push_u16_le(out: &mut Vec<u8>, v: u16)
    ensures
        final(out)@ == old(out)@ + u16_le(v),
{
    out.push((v % 256) as u8);
    out.push((v / 256) as u8);
    assert(final(out)@ =~= old(out)@ + u16_le(v));
}

fn get_u16_le(s: &[u8], i: usize) -> (v: u16)
    requires
        i + 1 < s@.len(),
    ensures
        v == read_u16_le(s@, i as int),
{
    (s[i] as u16) + 256 * (s[i + 1] as u16)
}

impl TGAHeader {
    /// The 18 bytes of the header, in file order.
    pub fn to_bytes(&self) -> (out: Vec<u8>)
        ensures
            out@ == header_bytes(*self),
    {
        let mut out: Vec<u8> = Vec::new();
        out.push(self.idlength);
        out.push(self.colormaptype);
        out.push(self.datatypecode);
        push_u16_le(&mut out, self.colormaporigin);
        push_u16_le(&mut out, self.colormaplength);
        out.push(self.colormapdepth);
        push_u16_le(&mut out, self.x_origin);
        push_u16_le(&mut out, self.y_origin);
        push_u16_le(&mut out, self.width);
        push_u16_le(&mut out, self.height);
        out.push(self.bitsperpixel);
        out.push(self.imagedescriptor);
        assert(out@ =~= header_bytes(*self));
        out
    }

    /// The header held by the first 18 bytes of `s`.
    pub fn from_bytes(s: &[u8]) -> (h: TGAHeader)
        requires
            s@.len() >= 18,
        ensures
            h == parse_header(s@),
    {
        TGAHeader {
            idlength: s[0],
            colormaptype: s[1],
            datatypecode: s[2],
            colormaporigin: get_u16_le(s, 3),
            colormaplength: get_u16_le(s, 5),
            colormapdepth: s[7],
            x_origin: get_u16_le(s, 8),
            y_origin: get_u16_le(s, 10),
            width: get_u16_le(s, 12),
            height: get_u16_le(s, 14),
            bitsperpixel: s[16],
            imagedescriptor: s[17],
        }
    }
}

impl Default for TGAHeader {
    /// Every field zero.
    fn default() -> (h: Self)
        ensures
            h == (TGAHeader {
                idlength: 0, colormaptype: 0, datatypecode: 0, colormaporigin: 0,
                colormaplength: 0, colormapdepth: 0, x_origin: 0, y_origin: 0,
                width: 0, height: 0, bitsperpixel: 0, imagedescriptor: 0,
            }),
    {
        TGAHeader {
            idlength: 0, colormaptype: 0, datatypecode: 0, colormaporigin: 0,
            colormaplength: 0, colormapdepth: 0, x_origin: 0, y_origin: 0,
            width: 0, height: 0, bitsperpixel: 0, imagedescriptor: 0,
        }
    }
}

/// Reading a header back from its bytes gives the same header; the bytes are 18.
pub proof fn law_header_roundtrip(h: TGAHeader, rest: Seq<u8>)
    ensures
        header_bytes(h).len() == 18,
        parse_header(header_bytes(h) + rest) == h,
{
    let b = header_bytes(h) + rest;
    assert(b[3] + 256 * b[4] == h.colormaporigin);
    assert(b[5] + 256 * b[6] == h.colormaplength);
    assert(b[8] + 256 * b[9] == h.x_origin);
    assert(b[10] + 256 * b[11] == h.y_origin);
    assert(b[12] + 256 * b[13] == h.width);
    assert(b[14] + 256 * b[15] == h.height);
}

/// `p` repeated `n` times.
pub open spec fn repeat_bytes(p: Seq<u8>, n: nat) -> Seq<u8>
    decreases n,
{
    if n == 0 { Seq::empty() } else { repeat_bytes(p, (n - 1) as nat) + p }
}

/// `p` repeated `n` times is `n` times as long.
pub proof fn lemma_repeat_len(p: Seq<u8>, n: nat)
    ensures
        repeat_bytes(p, n).len() == n * p.len(),
    decreases n,
{
    if n > 0 {
        lemma_repeat_len(p, (n - 1) as nat);
        assert(((n - 1) as nat) * p.len() + p.len() == n * p.len()) by (nonlinear_arith)
            requires n > 0;
    } else {
        assert(n * p.len() == 0) by (nonlinear_arith) requires n == 0;
    }
}

/// What `rle_decode` gives has `need * ps` bytes.
pub proof fn lemma_rle_decode_len(s: Seq<u8>, ps: nat, need: nat)
    ensures
        rle_decode(s, ps, need) matches Some(d) ==> d.len() == need * ps,
    decreases need,
{
    if need == 0 {
        assert(need * ps == 0) by (nonlinear_arith) requires need == 0;
    } else if s.len() > 0 {
        if s[0] < 128 {
            let n = s[0] as nat + 1;
            if n <= need && s.len() >= 1 + n * ps {
                lemma_rle_decode_len(s.skip(1 + (n * ps) as int), ps, (need - n) as nat);
                assert(n * ps + ((need - n) as nat) * ps == need * ps) by (nonlinear_arith)
                    requires n <= need;
            }
        } else {
            let n = (s[0] - 127) as nat;
            if n <= need && s.len() >= 1 + ps {
                lemma_rle_decode_len(s.skip(1 + ps as int), ps, (need - n) as nat);
                lemma_repeat_len(s.subrange(1, 1 + ps as int), n);
                assert(n * ps + ((need - n) as nat) * ps == need * ps) by (nonlinear_arith)
                    requires n <= need;
            }
        }
    }
}

/// `Some(p + t)` for `Some(t)`, `None` for `None`.
pub open spec fn prepend(p: Seq<u8>, r: Option<Seq<u8>>) -> Option<Seq<u8>> {
    match r {
        Some(t) => Some(p + t),
        None => None,
    }
}

/// The pixel bytes that run-length encoded data `s` holds for exactly `need` pixels
/// of `ps` bytes each, or `None` when it cannot supply them.
///
/// Each packet starts with a header byte `c`. When `c < 128` it is a raw packet:
/// `c + 1` pixels follow literally. Otherwise it is a run: one pixel follows,
/// repeated `c - 127` times. Decoding stops as soon as `need` pixels are reached;
/// it fails when the data ends early or a packet goes past `need`.
pub open spec fn rle_decode(s: Seq<u8>, ps: nat, need: nat) -> Option<Seq<u8>>
    decreases need,
{
    if need == 0 {
        Some(Seq::empty())
    } else if s.len() == 0 {
        None
    } else if s[0] < 128 {
        let n = s[0] as nat + 1;
        if n > need || s.len() < 1 + n * ps {
            None
        } else {
            prepend(s.subrange(1, 1 + (n * ps) as int), rle_decode(s.skip(1 + (n * ps) as int), ps, (need - n) as nat))
        }
    } else {
        let n = (s[0] - 127) as nat;
        if n > need || s.len() < 1 + ps {
            None
        } else {
            prepend(repeat_bytes(s.subrange(1, 1 + ps as int), n), rle_decode(s.skip(1 + ps as int), ps, (need - n) as nat))
        }
    }
}

/// Decodes run-length encoded pixel data, `rle_decode(s, pixel_size, pixel_count)`.
/// Trailing bytes after the last needed packet are ignored.
pub fn decode_rle(s: &[u8], pixel_count: usize, pixel_size: usize) -> (r: Option<Vec<u8>>)
    requires
        pixel_count * pixel_size <= usize::MAX,
    ensures
        match r {
            Some(v) => rle_decode(s@, pixel_size as nat, pixel_count as nat) == Some(v@),
            None => rle_decode(s@, pixel_size as nat, pixel_count as nat) is None,
        },
{
    let mut out: Vec<u8> = Vec::new();
    let mut pos: usize = 0;
    let mut need: usize = pixel_count;
    let ghost ps = pixel_size as nat;
    let len = s.len();
    proof {
        let r = rle_decode(s@, ps, pixel_count as nat);
        if r is Some {
            assert(Seq::<u8>::empty() + r->0 =~= r->0);
        }
        assert(s@.skip(0) =~= s@);
    }
    while need > 0
        invariant
            ps == pixel_size as nat,
            len == s@.len(),
            pos <= len,
            need <= pixel_count,
            out@.len() == (pixel_count - need) * pixel_size,
            pixel_count * pixel_size <= usize::MAX,
            rle_decode(s@, ps, pixel_count as nat) == prepend(out@, rle_decode(s@.skip(pos as int), ps, need as nat)),
        decreases need,
    {
        let ghost rest = s@.skip(pos as int);
        if pos >= len {
            assert(rest.len() == 0);
            return None;
        }
        assert(rest[0] == s@[pos as int]);
        let hd = s[pos];
        if hd < 128 {
            let n: usize = hd as usize + 1;
            if n > need {
                return None;
            }
            proof {
                assert(n * pixel_size <= need * pixel_size) by (nonlinear_arith)
                    requires n <= need;
                assert(out@.len() + n * pixel_size <= pixel_count * pixel_size) by (nonlinear_arith)
                    requires out@.len() == (pixel_count - need) * pixel_size, n <= need, need <= pixel_count;
            }
            let bytes = n * pixel_size;
            if len - pos - 1 < bytes {
                return None;
            }
            let ghost before = out@;
            let mut i: usize = 0;
            while i < bytes
                invariant
                    i <= bytes,
                    pos + 1 + bytes <= len,
                    len == s@.len(),
                    out@ == before + s@.subrange(pos + 1, pos + 1 + i),
                decreases bytes - i,
            {
                out.push(s[pos + 1 + i]);
                i = i + 1;
                assert(out@ =~= before + s@.subrange(pos + 1, pos + 1 + i));
            }
            proof {
                assert(rest.subrange(1, 1 + (n * ps) as int) =~= s@.subrange(pos + 1, pos + 1 + bytes));
                assert(rest.skip(1 + (n * ps) as int) =~= s@.skip(pos + 1 + bytes));
                assert(before + s@.subrange(pos + 1, pos + 1 + bytes) + rest.skip(0) =~= before + (s@.subrange(pos + 1, pos + 1 + bytes) + rest.skip(0)));
                assert(out@.len() == (pixel_count - (need - n)) * pixel_size) by (nonlinear_arith)
                    requires out@.len() == (pixel_count - need) * pixel_size + n * pixel_size;
            }
            pos = pos + 1 + bytes;
            need = need - n;
        } else {
            let n: usize = hd as usize - 127;
            if n > need {
                return None;
            }
            if len - pos - 1 < pixel_size {
                return None;
            }
            proof {
                assert(out@.len() + n * pixel_size <= pixel_count * pixel_size) by (nonlinear_arith)
                    requires out@.len() == (pixel_count - need) * pixel_size, n <= need, need <= pixel_count;
            }
            let ghost before = out@;
            let ghost px = s@.subrange(pos + 1, pos + 1 + pixel_size);
            let mut k: usize = 0;
            while k < n
                invariant
                    k <= n,
                    pos + 1 + pixel_size <= len,
                    len == s@.len(),
                    px == s@.subrange(pos + 1, pos + 1 + pixel_size),
                    out@ == before + repeat_bytes(px, k as nat),
                    before.len() + n * pixel_size <= pixel_count * pixel_size,
                    pixel_count * pixel_size <= usize::MAX,
                decreases n - k,
            {
                let ghost before_k = out@;
                let mut i: usize = 0;
                while i < pixel_size
                    invariant
                        i <= pixel_size,
                        pos + 1 + pixel_size <= len,
                        len == s@.len(),
                        px == s@.subrange(pos + 1, pos + 1 + pixel_size),
                        out@ == before_k + px.subrange(0, i as int),
                    decreases pixel_size - i,
                {
                    out.push(s[pos + 1 + i]);
                    i = i + 1;
                    assert(out@ =~= before_k + px.subrange(0, i as int));
                }
                k = k + 1;
                assert(out@ =~= before + repeat_bytes(px, k as nat));
            }
            proof {
                lemma_repeat_len(px, n as nat);
                assert(out@.len() == (pixel_count - (need - n)) * pixel_size) by (nonlinear_arith)
                    requires out@.len() == (pixel_count - need) * pixel_size + n * pixel_size;
                assert(rest.subrange(1, 1 + ps as int) =~= px);
                assert(rest.skip(1 + ps as int) =~= s@.skip(pos + 1 + pixel_size));
            }
            pos = pos + 1 + pixel_size;
            need = need - n;
        }
    }
    Some(out)
}

/// Why the bytes of a TGA file could not be read as an image.
#[derive(Clone, Copy, Debug, PartialEq, Eq, Structural)]
pub enum TgaError {
    /// Fewer than 18 bytes: no complete header.
    HeaderTooShort,
    /// The header's bits per pixel do not give 1, 3 or 4 bytes per pixel.
    UnsupportedPixelSize,
    /// `width * height * pixel_size` does not fit in `usize`.
    ImageTooLarge,
    /// Uncompressed data shorter than `width * height * pixel_size` bytes.
    DataTooShort,
    /// Run-length encoded data that does not decode to exactly the image's pixels.
    CorruptRle,
    /// A data type code other than 2, 3 (uncompressed) or 10, 11 (run-length encoded).
    UnknownDataType(u8),
}

/// The image that the bytes of a TGA file hold, as `(width, height, pixel_size, data)`.
///
/// The pixel data starts right after the 18-byte header. The pixel size is the
/// header's bits per pixel divided by 8 and must be 1, 3 or 4. Data type codes 2 and
/// 3 hold `width * height * pixel_size` bytes as they are; codes 10 and 11 hold them
/// run-length encoded.
pub open spec fn tga_decode(s: Seq<u8>) -> Result<(usize, usize, usize, Seq<u8>), TgaError> {
    if s.len() < 18 {
        Err(TgaError::HeaderTooShort)
    } else {
        let th = parse_header(s);
        let w = th.width as usize;
        let h = th.height as usize;
        let ps = (th.bitsperpixel as usize) >> 3;
        let n = h * w * ps;
        if ps != 1 && ps != 3 && ps != 4 {
            Err(TgaError::UnsupportedPixelSize)
        } else if n > usize::MAX {
            Err(TgaError::ImageTooLarge)
        } else if th.datatypecode == 2 || th.datatypecode == 3 {
            if s.len() - 18 >= n {
                Ok((w, h, ps, s.subrange(18, 18 + n)))
            } else {
                Err(TgaError::DataTooShort)
            }
        } else if th.datatypecode == 10 || th.datatypecode == 11 {
            if w * h == 0 {
                Err(TgaError::CorruptRle)
            } else {
                match rle_decode(s.skip(18), ps as nat, (w * h) as nat) {
                    Some(d) => Ok((w, h, ps, d)),
                    None => Err(TgaError::CorruptRle),
                }
            }
        } else {
            Err(TgaError::UnknownDataType(th.datatypecode))
        }
    }
}

/// The header written for an image of the given size: the data type code says
/// grayscale (`pixel_size == 1`) or color, run-length encoded or not; the image
/// descriptor marks the origin at the top left unless `flip`.
pub open spec fn written_header(w: usize, h: usize, ps: usize, flip: bool, rle: bool) -> TGAHeader {
    TGAHeader {
        idlength: 0,
        colormaptype: 0,
        datatypecode: if ps == 1 { if rle { 11 } else { 3 } } else if rle { 10 } else { 2 },
        colormaporigin: 0,
        colormaplength: 0,
        colormapdepth: 0,
        x_origin: 0,
        y_origin: 0,
        width: w as u16,
        height: h as u16,
        bitsperpixel: (ps as u8) << 3,
        imagedescriptor: if flip { 0x00 } else { 0x20 },
    }
}

/// The file footer: "TRUEVISION-XFILE." and a zero byte.
pub open spec fn tga_footer() -> Seq<u8> {
    seq![84u8, 82, 85, 69, 86, 73, 83, 73, 79, 78, 45, 88, 70, 73, 76, 69, 46, 0]
}

/// The bytes of a TGA file for an image: header, pixel data as it is, an empty
/// developer area and extension area offset (four zero bytes each), footer.
pub open spec fn tga_encode(w: usize, h: usize, ps: usize, data: Seq<u8>, flip: bool, rle: bool) -> Seq<u8> {
    header_bytes(written_header(w, h, ps, flip, rle)) + data + Seq::new(8, |i: int| 0u8) + tga_footer()
}

/// A color of up to four channels, stored as blue, green, red, alpha.
pub struct TgaColor {
    rgba: [u8; 4],
    size: usize,
}

impl TgaColor {
    /// The four stored channels, in storage order (blue, green, red, alpha).
    pub closed spec fn channels(&self) -> Seq<u8> {
        self.rgba@
    }

    /// The number of meaningful channels.
    pub closed spec fn spec_size(&self) -> usize {
        self.size
    }

    /// A color always has four stored channels.
    pub proof fn lemma_channels_len(&self)
        ensures
            self.channels().len() == 4,
    {
    }

    /// Builds a four-channel color; the channels are stored as blue, green, red, alpha.
    pub fn new(red: u8, green: u8, blue: u8, alpha: u8) -> (c: Self)
        ensures
            c.channels() == seq![blue, green, red, alpha],
            c.spec_size() == 4,
    {
        TgaColor { rgba: [blue, green, red, alpha], size: 4 }
    }

    /// The channel at `index` in storage order.
    pub fn get(&self, index: usize) -> (v: u8)
        requires
            index < 4,
        ensures
            v == self.channels()[index as int],
    {
        self.rgba[index]
    }

    /// Overwrites the channel at `index`.
    pub fn set(&mut self, index: usize, num: u8)
        requires
            index < 4,
        ensures
            final(self).channels() == old(self).channels().update(index as int, num),
            final(self).spec_size() == old(self).spec_size(),
    {
        self.rgba[index] = num;
    }
}


impl Default for TgaColor {
    /// All four channels zero, size zero.
    fn default() -> (c: Self)
        ensures
            c.channels() == seq![0u8, 0u8, 0u8, 0u8],
            c.spec_size() == 0,
    {
        TgaColor { rgba: [0u8; 4], size: 0 }
    }
}

/// Byte offset of pixel `(x, y)` in a row-major buffer of rows `w` pixels wide.
pub open spec fn pixel_offset(x: int, y: int, w: int, ps: int) -> int {
    (y * w + x) * ps
}

/// The `ps` bytes of pixel `(x, y)` in a row-major buffer of rows `w` pixels wide.
pub open spec fn pixel_bytes(data: Seq<u8>, w: int, ps: int, x: int, y: int) -> Seq<u8> {
    let p = pixel_offset(x, y, w, ps);
    data.subrange(p, p + ps)
}

/// `data` with pixel `(x, y)` overwritten by the first `ps` bytes of `c`, when the
/// buffer is non-empty and the pixel lies inside a `w` by `h` image; else `data`.
pub open spec fn put_pixel(data: Seq<u8>, w: int, h: int, ps: int, x: int, y: int, c: Seq<u8>) -> Seq<u8> {
    if data.len() > 0 && 0 <= x < w && 0 <= y < h {
        let p = pixel_offset(x, y, w, ps);
        Seq::new(data.len(), |i: int| if p <= i < p + ps { c[i - p] } else { data[i] })
    } else {
        data
    }
}

/// `data` after `put_pixel` at each point of `pts` in turn.
pub open spec fn put_pixels(data: Seq<u8>, w: int, h: int, ps: int, pts: Seq<(usize, usize)>, c: Seq<u8>) -> Seq<u8>
    decreases pts.len(),
{
    if pts.len() == 0 {
        data
    } else {
        put_pixel(
            put_pixels(data, w, h, ps, pts.drop_last(), c),
            w, h, ps, pts.last().0 as int, pts.last().1 as int, c,
        )
    }
}

/// `(y * w + x + 1) * ps` stays within a `w * h * ps` buffer.
pub proof fn lemma_pixel_in_buffer(x: int, y: int, w: int, h: int, ps: int)
    requires
        0 <= x < w,
        0 <= y < h,
        0 <= ps,
    ensures
        0 <= y * w <= y * w + x < w * h,
        0 <= pixel_offset(x, y, w, ps),
        pixel_offset(x, y, w, ps) + ps <= w * h * ps,
        ps >= 1 ==> w * h <= w * h * ps,
{
    assert(ps >= 1 ==> w * h <= w * h * ps) by (nonlinear_arith)
        requires 0 <= x < w, 0 <= y < h;
    assert(0 <= y * w) by (nonlinear_arith)
        requires 0 <= y, 0 <= w;
    assert(y * w + x < w * h) by (nonlinear_arith)
        requires 0 <= x < w, 0 <= y < h;
    assert(0 <= (y * w + x) * ps) by (nonlinear_arith)
        requires 0 <= y * w + x, 0 <= ps;
    assert((y * w + x) * ps + ps <= w * h * ps) by (nonlinear_arith)
        requires y * w + x + 1 <= w * h, 0 <= ps;
}

/// `data`, read as `h` rows of `row` bytes, with the order of the rows reversed.
pub open spec fn flipped_rows(data: Seq<u8>, h: int, row: int) -> Seq<u8> {
    Seq::new(data.len(), |j: int| data[(h - 1 - j / row) * row + j % row])
}

/// Where byte `j` of a flipped buffer of `h` rows of `row` bytes comes from.
pub proof fn lemma_flip_index(j: int, h: int, row: int)
    requires
        0 <= j < h * row,
        row > 0,
    ensures
        0 <= j / row < h,
        0 <= j % row < row,
        j == (j / row) * row + j % row,
        0 <= (h - 1 - j / row) * row + j % row < h * row,
        ((h - 1 - j / row) * row + j % row) / row == h - 1 - j / row,
        ((h - 1 - j / row) * row + j % row) % row == j % row,
{
    let r = j / row;
    let k = j % row;
    vstd::arithmetic::div_mod::lemma_fundamental_div_mod(j, row);
    vstd::arithmetic::div_mod::lemma_mod_pos_bound(j, row);
    assert(j == r * row + k) by (nonlinear_arith)
        requires j == row * r + k;
    assert(0 <= r) by (nonlinear_arith)
        requires j == r * row + k, 0 <= j, 0 <= k < row, row > 0;
    assert(r < h) by (nonlinear_arith)
        requires j == r * row + k, j < h * row, 0 <= k < row, row > 0;
    assert(0 <= (h - 1 - r) * row + k < h * row) by (nonlinear_arith)
        requires 0 <= r < h, 0 <= k < row, row > 0;
    vstd::arithmetic::div_mod::lemma_fundamental_div_mod_converse((h - 1 - r) * row + k, row, h - 1 - r, k);
}

/// `|a - b|`.
pub open spec fn dist(a: int, b: int) -> int {
    if a < b { b - a } else { a - b }
}

/// A line is steep when it rises more than it runs; it is then drawn with the
/// roles of the two coordinates exchanged.
pub open spec fn line_is_steep(p1: (usize, usize), p2: (usize, usize)) -> bool {
    dist(p1.0 as int, p2.0 as int) < dist(p1.1 as int, p2.1 as int)
}

/// The end points in drawing coordinates: coordinates exchanged for a steep line,
/// then ordered so that the first has the smaller leading coordinate.
pub open spec fn line_ends(p1: (usize, usize), p2: (usize, usize)) -> ((int, int), (int, int)) {
    let (a1, b1, a2, b2) = if line_is_steep(p1, p2) {
        (p1.1 as int, p1.0 as int, p2.1 as int, p2.0 as int)
    } else {
        (p1.0 as int, p1.1 as int, p2.0 as int, p2.1 as int)
    };
    if a1 > a2 { ((a2, b2), (a1, b1)) } else { ((a1, b1), (a2, b2)) }
}

/// How far the minor coordinate has moved after `k` steps along a line of run
/// `run` and rise `rise`: the nearest whole number to `k * rise / run`, halves
/// rounded down.
pub open spec fn line_rise_after(k: int, run: int, rise: int) -> int {
    (2 * rise * k + run - 1) / (2 * run)
}

/// The pixels that `draw_line(p1, p2, ..)` sets, in order: one per step of the
/// leading coordinate from the first end point up to, but not including, the last.
pub open spec fn line_points(p1: (usize, usize), p2: (usize, usize)) -> Seq<(usize, usize)> {
    let ((a1, b1), (a2, b2)) = line_ends(p1, p2);
    let run = a2 - a1;
    let rise = dist(b1, b2);
    Seq::new(run as nat, |k: int| {
        let a = a1 + k;
        let b = if b2 > b1 { b1 + line_rise_after(k, run, rise) } else { b1 - line_rise_after(k, run, rise) };
        if line_is_steep(p1, p2) { (b as usize, a as usize) } else { (a as usize, b as usize) }
    })
}

/// The error term of the line drawing pins down how far the minor coordinate moved.
pub proof fn lemma_rise_from_error(k: int, run: int, rise: int, c: int, e: int)
    requires
        run > 0,
        0 <= rise <= run,
        0 <= k <= run,
        e == 2 * rise * k - 2 * run * c,
        -run < e <= run,
    ensures
        c == line_rise_after(k, run, rise),
        0 <= c <= rise,
{
    assert(2 * rise * k + run - 1 == c * (2 * run) + (e + run - 1)) by (nonlinear_arith)
        requires e == 2 * rise * k - 2 * run * c;
    vstd::arithmetic::div_mod::lemma_fundamental_div_mod_converse(
        2 * rise * k + run - 1, 2 * run, c, e + run - 1);
    assert(0 <= c <= rise) by (nonlinear_arith)
        requires e == 2 * rise * k - 2 * run * c, -run < e <= run, run > 0, 0 <= rise, 0 <= k <= run, rise <= run;
}

/// One step of the error term: it stays in `(-run, run]`, tracks the rise so far,
/// and never lets the minor coordinate move past `rise`.
pub proof fn lemma_line_step(k: int, run: int, rise: int, c: int, e: int)
    requires
        run > 0,
        0 <= rise <= run,
        0 <= k < run,
        e == 2 * rise * k - 2 * run * c,
        -run < e <= run,
    ensures
        e + 2 * rise <= 3 * run,
        e + 2 * rise > run ==> {
            &&& c + 1 <= rise
            &&& -run < e + 2 * rise - 2 * run <= run
            &&& e + 2 * rise - 2 * run == 2 * rise * (k + 1) - 2 * run * (c + 1)
        },
        e + 2 * rise <= run ==> {
            &&& -run < e + 2 * rise
            &&& e + 2 * rise == 2 * rise * (k + 1) - 2 * run * c
        },
{
    assert(2 * rise * (k + 1) == 2 * rise * k + 2 * rise) by (nonlinear_arith);
    assert(2 * run * (c + 1) == 2 * run * c + 2 * run) by (nonlinear_arith);
    if e + 2 * rise > run {
        assert(c + 1 <= rise) by (nonlinear_arith)
            requires
                e + 2 * rise - 2 * run == 2 * rise * (k + 1) - 2 * run * (c + 1),
                e + 2 * rise - 2 * run > -run,
                run > 0,
                0 <= rise <= run,
                0 <= k < run;
    }
}

/// A non-empty `w * h * ps` buffer has `ps >= 1`.
pub proof fn lemma_nonempty_pixel_size(w: int, h: int, ps: int)
    requires
        0 <= w,
        0 <= h,
        0 <= ps,
        w * h * ps > 0,
    ensures
        ps >= 1,
        w >= 1,
        h >= 1,
{
    if ps == 0 {
        assert(w * h * ps == 0) by (nonlinear_arith) requires ps == 0;
    }
    if w == 0 {
        assert(w * h * ps == 0) by (nonlinear_arith) requires w == 0;
    }
    if h == 0 {
        assert(w * h * ps == 0) by (nonlinear_arith) requires h == 0;
    }
}

/// An image: `width * height` pixels of `pixel_size` bytes each, stored row by row.
pub struct TgaImage {
    data: Vec<u8>,
    pixel_size: usize,
    width: usize,
    height: usize,
}

impl TgaImage {
    /// One byte per pixel.
    pub const GRAYSCALE: usize = 1;
    /// Three bytes per pixel (blue, green, red).
    pub const RGB: usize = 3;
    /// Four bytes per pixel (blue, green, red, alpha).
    pub const RGBA: usize = 4;

    /// The pixel bytes, row by row.
    pub closed spec fn spec_data(&self) -> Seq<u8> {
        self.data@
    }

    pub closed spec fn spec_width(&self) -> usize {
        self.width
    }

    pub closed spec fn spec_height(&self) -> usize {
        self.height
    }

    pub closed spec fn spec_pixel_size(&self) -> usize {
        self.pixel_size
    }

    /// The buffer holds exactly `width * height * pixel_size` bytes.
    pub open spec fn wf(&self) -> bool {
        &&& self.spec_data().len() == self.spec_width() * self.spec_height() * self.spec_pixel_size()
        &&& self.spec_data().len() <= usize::MAX
    }

    /// Whether `set(x, y, ..)` writes: the buffer is non-empty and the pixel is inside.
    pub open spec fn writes_at(&self, x: int, y: int) -> bool {
        self.spec_data().len() > 0 && 0 <= x < self.spec_width() && 0 <= y < self.spec_height()
    }

    /// The buffer after `set(x, y, c)`.
    pub open spec fn data_with_pixel(&self, x: int, y: int, c: Seq<u8>) -> Seq<u8> {
        put_pixel(
            self.spec_data(), self.spec_width() as int, self.spec_height() as int,
            self.spec_pixel_size() as int, x, y, c,
        )
    }

    /// The `pixel_size` bytes of pixel `(x, y)`.
    pub open spec fn pixel(&self, x: int, y: int) -> Seq<u8> {
        pixel_bytes(self.spec_data(), self.spec_width() as int, self.spec_pixel_size() as int, x, y)
    }

    /// An image of the given size with every byte zero.
    pub fn new(width: usize, height: usize, pixel_size: usize) -> (img: Self)
        requires
            width * height * pixel_size <= usize::MAX,
        ensures
            img.wf(),
            img.spec_width() == width,
            img.spec_height() == height,
            img.spec_pixel_size() == pixel_size,
            img.spec_data() == Seq::new((width * height * pixel_size) as nat, |i: int| 0u8),
    {
        assert(width * height <= width * height * pixel_size || pixel_size == 0) by (nonlinear_arith)
            requires pixel_size >= 0, width * height >= 0;
        let n: usize = if pixel_size == 0 { 0 } else { width * height * pixel_size };
        proof {
            if pixel_size == 0 {
                assert(width * height * pixel_size == 0) by (nonlinear_arith)
                    requires pixel_size == 0;
            }
        }
        let mut data: Vec<u8> = Vec::new();
        for i in 0..n
            invariant
                data@.len() == i,
                forall|j: int| 0 <= j < i ==> #[trigger] data@[j] == 0u8,
        {
            data.push(0u8);
        }
        proof {
            assert(data@ =~= Seq::new((width * height * pixel_size) as nat, |i: int| 0u8));
        }
        TgaImage { data, pixel_size, width, height }
    }

    pub fn get_width(&self) -> (w: usize)
        ensures
            w == self.spec_width(),
    {
        self.width
    }

    pub fn get_height(&self) -> (h: usize)
        ensures
            h == self.spec_height(),
    {
        self.height
    }

    /// Writes the first `pixel_size` channels of `color` at pixel `(x, y)`; does
    /// nothing when the buffer is empty or the pixel lies outside the image.
    pub fn set(&mut self, x: usize, y: usize, color: &TgaColor)
        requires
            old(self).wf(),
            old(self).writes_at(x as int, y as int) ==> old(self).spec_pixel_size() <= 4,
        ensures
            final(self).wf(),
            final(self).spec_width() == old(self).spec_width(),
            final(self).spec_height() == old(self).spec_height(),
            final(self).spec_pixel_size() == old(self).spec_pixel_size(),
            final(self).spec_data() == old(self).data_with_pixel(x as int, y as int, color.channels()),
    {
        if self.data.len() > 0 && x < self.width && y < self.height {
            proof {
                lemma_nonempty_pixel_size(self.width as int, self.height as int, self.pixel_size as int);
                lemma_pixel_in_buffer(x as int, y as int, self.width as int, self.height as int, self.pixel_size as int);
            }
            let len = self.data.len();
            let position = (y * self.width + x) * self.pixel_size;
            let ghost old_data = self.data@;
            let ghost w = self.width;
            let ghost h = self.height;
            let ps = self.pixel_size;
            for i in 0..ps
                invariant
                    ps == self.pixel_size,
                    w == self.width,
                    h == self.height,
                    position == pixel_offset(x as int, y as int, w as int, ps as int),
                    ps <= 4,
                    position + ps <= len,
                    len == self.data@.len(),
                    self.data@.len() == old_data.len(),
                    forall|j: int| 0 <= j < old_data.len() ==> #[trigger] self.data@[j] == (
                        if position <= j < position + i { color.rgba@[j - position] } else { old_data[j] }),
            {
                self.data.set(position + i, color.rgba[i]);
            }
            proof {
                assert(self.data@ =~= put_pixel(old_data, self.width as int, self.height as int,
                    ps as int, x as int, y as int, color.rgba@));
            }
        }
    }

    /// Reverses the order of the rows: row `r` of the result is row `height - 1 - r`
    /// of the image before.
    pub fn flip_vertically(&mut self)
        requires
            old(self).wf(),
        ensures
            final(self).wf(),
            final(self).spec_width() == old(self).spec_width(),
            final(self).spec_height() == old(self).spec_height(),
            final(self).spec_pixel_size() == old(self).spec_pixel_size(),
            final(self).spec_data() == flipped_rows(
                old(self).spec_data(), old(self).spec_height() as int,
                old(self).spec_width() * old(self).spec_pixel_size(),
            ),
            forall|x: int, r: int| 0 <= x < old(self).spec_width() && 0 <= r < old(self).spec_height() ==>
                #[trigger] final(self).pixel(x, r) == old(self).pixel(x, old(self).spec_height() - 1 - r),
    {
        proof {
            let d = self.spec_data();
            let w = self.spec_width() as int;
            let h = self.spec_height() as int;
            let ps = self.spec_pixel_size() as int;
            assert forall|x: int, r: int| 0 <= x < w && 0 <= r < h implies
                #[trigger] pixel_bytes(flipped_rows(d, h, w * ps), w, ps, x, r)
                    == pixel_bytes(d, w, ps, x, h - 1 - r) by {
                law_flip_rows(d, w, h, ps, x, r);
            }
        }
        let len = self.data.len();
        if len == 0 {
            proof {
                assert(self.data@ =~= flipped_rows(self.data@, self.height as int,
                    self.width * self.pixel_size));
            }
            return;
        }
        proof {
            lemma_nonempty_pixel_size(self.width as int, self.height as int, self.pixel_size as int);
            assert(self.width * self.pixel_size <= self.width * self.height * self.pixel_size
                && self.width * self.height * self.pixel_size == self.height * (self.width * self.pixel_size)
                && self.width * self.pixel_size > 0) by (nonlinear_arith)
                requires self.width >= 1, self.height >= 1, self.pixel_size >= 1;
        }
        let row = self.width * self.pixel_size;
        let h = self.height;
        let mut out: Vec<u8> = Vec::new();
        for j in 0..len
            invariant
                len == self.data@.len(),
                len == h * row,
                row > 0,
                h == self.height,
                out@.len() == j,
                forall|i: int| 0 <= i < j ==> #[trigger] out@[i] == self.data@[(h - 1 - i / (row as int)) * row + i % (row as int)],
        {
            proof {
                lemma_flip_index(j as int, h as int, row as int);
            }
            let src = (h - 1 - j / row) * row + j % row;
            out.push(self.data[src]);
        }
        proof {
            assert(out@ =~= flipped_rows(self.data@, h as int, row as int));
        }
        self.data = out;
    }

    /// Replaces the image by the one that the bytes of a TGA file hold
    /// (`tga_decode`); on an error the image is left as it was.
    pub fn read_tga_bytes(&mut self, s: &[u8]) -> (r: Result<(), TgaError>)
        ensures
            match r {
                Ok(()) => {
                    &&& final(self).wf()
                    &&& tga_decode(s@) == Ok::<(usize, usize, usize, Seq<u8>), TgaError>((
                        final(self).spec_width(),
                        final(self).spec_height(),
                        final(self).spec_pixel_size(),
                        final(self).spec_data(),
                    ))
                },
                Err(e) => {
                    &&& tga_decode(s@) == Err::<(usize, usize, usize, Seq<u8>), TgaError>(e)
                    &&& *final(self) == *old(self)
                },
            },
    {
        if s.len() < TGA_HEADER_LEN {
            return Err(TgaError::HeaderTooShort);
        }
        let th = TGAHeader::from_bytes(s);
        let width = th.width as usize;
        let height = th.height as usize;
        let pixel_size = (th.bitsperpixel as usize) >> 3;
        if pixel_size != Self::GRAYSCALE && pixel_size != Self::RGB && pixel_size != Self::RGBA {
            return Err(TgaError::UnsupportedPixelSize);
        }
        let hw = match height.checked_mul(width) {
            Some(v) => v,
            None => {
                assert(height * width * pixel_size > usize::MAX) by (nonlinear_arith)
                    requires height * width > usize::MAX, pixel_size >= 1;
                return Err(TgaError::ImageTooLarge);
            },
        };
        let n = match hw.checked_mul(pixel_size) {
            Some(v) => v,
            None => {
                return Err(TgaError::ImageTooLarge);
            },
        };
        proof {
            assert(width * height == height * width) by (nonlinear_arith);
            assert(width * height * pixel_size == height * width * pixel_size) by (nonlinear_arith);
        }
        let data = if th.datatypecode == 3 || th.datatypecode == 2 {
            if s.len() - TGA_HEADER_LEN < n {
                return Err(TgaError::DataTooShort);
            }
            let mut data: Vec<u8> = Vec::new();
            let mut i: usize = 0;
            let len = s.len();
            while i < n
                invariant
                    i <= n,
                    len == s@.len(),
                    TGA_HEADER_LEN + n <= s@.len(),
                    data@ == s@.subrange(18, 18 + i),
                decreases n - i,
            {
                data.push(s[TGA_HEADER_LEN + i]);
                i = i + 1;
                assert(data@ =~= s@.subrange(18, 18 + i));
            }
            data
        } else if th.datatypecode == 10 || th.datatypecode == 11 {
            if hw == 0 {
                return Err(TgaError::CorruptRle);
            }
            let rest = vstd::slice::slice_subrange(s, TGA_HEADER_LEN, s.len());
            assert(rest@ =~= s@.skip(18));
            match decode_rle(rest, hw, pixel_size) {
                Some(d) => {
                    proof {
                        lemma_rle_decode_len(rest@, pixel_size as nat, hw as nat);
                    }
                    d
                },
                None => {
                    return Err(TgaError::CorruptRle);
                },
            }
        } else {
            return Err(TgaError::UnknownDataType(th.datatypecode));
        };
        self.data = data;
        self.width = width;
        self.height = height;
        self.pixel_size = pixel_size;
        Ok(())
    }

    /// The bytes of a TGA file for this image (`tga_encode`). The pixel data is
    /// written as it is, also when `rle` is set: the flag only changes the header's
    /// data type code.
    pub fn write_tga_bytes(&self, flip: bool, rle: bool) -> (out: Vec<u8>)
        ensures
            out@ == tga_encode(
                self.spec_width(), self.spec_height(), self.spec_pixel_size(),
                self.spec_data(), flip, rle,
            ),
    {
        let datatypecode: u8 = if self.pixel_size == Self::GRAYSCALE {
            if rle { 11 } else { 3 }
        } else if rle {
            10
        } else {
            2
        };
        let header = TGAHeader {
            idlength: 0,
            colormaptype: 0,
            datatypecode,
            colormaporigin: 0,
            colormaplength: 0,
            colormapdepth: 0,
            x_origin: 0,
            y_origin: 0,
            width: self.width as u16,
            height: self.height as u16,
            bitsperpixel: (self.pixel_size as u8) << 3,
            imagedescriptor: if flip { 0x00 } else { 0x20 },
        };
        let mut out = header.to_bytes();
        let ghost head = out@;
        let n = self.data.len();
        let mut i: usize = 0;
        while i < n
            invariant
                i <= n,
                n == self.data@.len(),
                out@ == head + self.data@.subrange(0, i as int),
            decreases n - i,
        {
            out.push(self.data[i]);
            i = i + 1;
            assert(out@ =~= head + self.data@.subrange(0, i as int));
        }
        let ghost with_data = out@;
        let mut k: usize = 0;
        while k < 8
            invariant
                k <= 8,
                out@ == with_data + Seq::new(k as nat, |j: int| 0u8),
            decreases 8 - k,
        {
            out.push(0u8);
            k = k + 1;
            assert(out@ =~= with_data + Seq::new(k as nat, |j: int| 0u8));
        }
        let footer: [u8; 18] = [84, 82, 85, 69, 86, 73, 83, 73, 79, 78, 45, 88, 70, 73, 76, 69, 46, 0];
        let ghost with_zeros = out@;
        let mut f: usize = 0;
        while f < 18
            invariant
                f <= 18,
                footer@ == tga_footer(),
                out@ == with_zeros + footer@.subrange(0, f as int),
            decreases 18 - f,
        {
            out.push(footer[f]);
            f = f + 1;
            assert(out@ =~= with_zeros + footer@.subrange(0, f as int));
        }
        proof {
            assert(self.data@.subrange(0, n as int) =~= self.data@);
            assert(footer@.subrange(0, 18) =~= tga_footer());
            assert(header == written_header(self.width, self.height, self.pixel_size, flip, rle));
        }
        out
    }

    /// Draws the line from `point1` towards `point2` (the far end point itself is not
    /// drawn), setting the pixels of `line_points(point1, point2)` in order.
    /// Both points must lie inside the image.
    #[verifier::rlimit(40)]
    pub fn draw_line(&mut self, point1: (usize, usize), point2: (usize, usize), color: &TgaColor)
        requires
            old(self).wf(),
            point1.0 < old(self).spec_width(),
            point1.1 < old(self).spec_height(),
            point2.0 < old(self).spec_width(),
            point2.1 < old(self).spec_height(),
            point1.0 <= i32::MAX,
            point1.1 <= i32::MAX,
            point2.0 <= i32::MAX,
            point2.1 <= i32::MAX,
            3 * dist(point1.0 as int, point2.0 as int) <= i32::MAX,
            3 * dist(point1.1 as int, point2.1 as int) <= i32::MAX,
            line_points(point1, point2).len() > 0 && old(self).spec_data().len() > 0
                ==> old(self).spec_pixel_size() <= 4,
        ensures
            final(self).wf(),
            final(self).spec_width() == old(self).spec_width(),
            final(self).spec_height() == old(self).spec_height(),
            final(self).spec_pixel_size() == old(self).spec_pixel_size(),
            final(self).spec_data() == put_pixels(
                old(self).spec_data(), old(self).spec_width() as int, old(self).spec_height() as int,
                old(self).spec_pixel_size() as int, line_points(point1, point2), color.channels(),
            ),
    {
        let ghost pts = line_points(point1, point2);
        let ghost ends = line_ends(point1, point2);
        let d0 = if point1.0 > point2.0 { point1.0 - point2.0 } else { point2.0 - point1.0 };
        let d1 = if point1.1 > point2.1 { point1.1 - point2.1 } else { point2.1 - point1.1 };
        let steep = d0 < d1;
        let (mut a1, mut b1, mut a2, mut b2) = if steep {
            (point1.1, point1.0, point2.1, point2.0)
        } else {
            (point1.0, point1.1, point2.0, point2.1)
        };
        if a1 > a2 {
            let (ta, tb) = (a1, b1);
            a1 = a2;
            b1 = b2;
            a2 = ta;
            b2 = tb;
        }
        assert(ends == ((a1 as int, b1 as int), (a2 as int, b2 as int)));
        let dx: i32 = a2 as i32 - a1 as i32;
        let dy: i32 = b2 as i32 - b1 as i32;
        let mut error: i32 = 0;
        let ady: i32 = if dy < 0 { -dy } else { dy };
        let derror: i32 = ady * 2;
        let mut y = b1;
        let ghost run = dx as int;
        let ghost rise = ady as int;
        let ghost mut c: int = 0;
        let ghost w = self.spec_width() as int;
        let ghost h = self.spec_height() as int;
        let ghost ps = self.spec_pixel_size() as int;
        let ghost data0 = self.spec_data();
        assert(pts.len() == run);
        let mut x = a1;
        assert(2 * rise * (x - a1) - 2 * run * c == 0) by (nonlinear_arith)
            requires x == a1, c == 0;
        while x < a2
            invariant
                a1 <= x <= a2,
                run == a2 - a1,
                rise == dist(b1 as int, b2 as int),
                rise <= run,
                3 * run <= i32::MAX,
                dx == run,
                derror == 2 * rise,
                b2 > b1 ==> y == b1 + c,
                b2 <= b1 ==> y == b1 - c,
                0 <= c <= rise,
                error == 2 * rise * (x - a1) - 2 * run * c,
                x < a2 ==> -run < error,
                error <= run,
                pts == line_points(point1, point2),
                pts.len() == run,
                ends == line_ends(point1, point2),
                ends == ((a1 as int, b1 as int), (a2 as int, b2 as int)),
                steep == line_is_steep(point1, point2),
                self.wf(),
                self.spec_width() == w,
                self.spec_height() == h,
                self.spec_pixel_size() == ps,
                run > 0 && data0.len() > 0 ==> ps <= 4,
                self.spec_data().len() == data0.len(),
                self.spec_data() == put_pixels(data0, w, h, ps, pts.take(x - a1), color.channels()),
            decreases a2 - x,
        {
            let ghost k = x - a1;
            proof {
                lemma_rise_from_error(k, run, rise, c, error as int);
                lemma_line_step(k, run, rise, c, error as int);
                assert(pts.take(k + 1).drop_last() =~= pts.take(k));
            }
            if steep {
                self.set(y, x, color);
            } else {
                self.set(x, y, color);
            }
            error = error + derror;
            if error > dx {
                if b2 > b1 {
                    y = y + 1;
                } else {
                    y = y - 1;
                }
                error = error - dx * 2;
                proof { c = c + 1; }
            }
            x = x + 1;
        }
        assert(pts.take(run) =~= pts);
    }

    /// The color at pixel `(x, y)`: its first `pixel_size` channels are the pixel's
    /// bytes, the others are 255, and its size is `pixel_size`.
    pub fn get(&self, x: usize, y: usize) -> (c: TgaColor)
        requires
            self.wf(),
            x < self.spec_width(),
            y < self.spec_height(),
            self.spec_data().len() > 0,
            self.spec_pixel_size() <= 4,
        ensures
            c.spec_size() == self.spec_pixel_size(),
            c.channels().len() == 4,
            forall|i: int| 0 <= i < 4 ==> #[trigger] c.channels()[i] == (
                if i < self.spec_pixel_size() { self.pixel(x as int, y as int)[i] } else { 255u8 }),
    {
        proof {
            lemma_nonempty_pixel_size(self.width as int, self.height as int, self.pixel_size as int);
            lemma_pixel_in_buffer(x as int, y as int, self.width as int, self.height as int, self.pixel_size as int);
        }
        let len = self.data.len();
        let mut ret = TgaColor { rgba: [255u8; 4], size: self.pixel_size };
        let position = (y * self.width + x) * self.pixel_size;
        let ps = self.pixel_size;
        for i in 0..ps
            invariant
                ps == self.pixel_size,
                ps <= 4,
                ret.size == ps,
                position == pixel_offset(x as int, y as int, self.width as int, ps as int),
                position + ps <= len,
                len == self.data@.len(),
                ret.rgba@.len() == 4,
                forall|j: int| 0 <= j < 4 ==> #[trigger] ret.rgba@[j] == (
                    if j < i { self.data@[position + j] } else { 255u8 }),
        {
            ret.rgba[i] = self.data[position + i];
        }
        ret
    }
}


impl Default for TgaImage {
    /// The empty image: no bytes, zero width, height and pixel size.
    fn default() -> (img: Self)
        ensures
            img.wf(),
            img.spec_data().len() == 0,
            img.spec_width() == 0,
            img.spec_height() == 0,
            img.spec_pixel_size() == 0,
    {
        TgaImage { data: Vec::new(), pixel_size: 0, width: 0, height: 0 }
    }
}

/// Two distinct pixels of a `w` pixels wide image occupy disjoint byte ranges.
pub proof fn lemma_distinct_pixels_disjoint(x1: int, y1: int, x2: int, y2: int, w: int, ps: int)
    requires
        0 <= x1 < w,
        0 <= x2 < w,
        0 <= y1,
        0 <= y2,
        ps >= 0,
        x1 != x2 || y1 != y2,
    ensures
        pixel_offset(x1, y1, w, ps) + ps <= pixel_offset(x2, y2, w, ps)
            || pixel_offset(x2, y2, w, ps) + ps <= pixel_offset(x1, y1, w, ps),
{
    let i1 = y1 * w + x1;
    let i2 = y2 * w + x2;
    if y1 == y2 {
        assert(i1 != i2);
    } else if y1 < y2 {
        assert(i1 < i2) by (nonlinear_arith)
            requires i1 == y1 * w + x1, i2 == y2 * w + x2, y1 < y2, 0 <= x1 < w, 0 <= x2;
    } else {
        assert(i2 < i1) by (nonlinear_arith)
            requires i1 == y1 * w + x1, i2 == y2 * w + x2, y2 < y1, 0 <= x2 < w, 0 <= x1;
    }
    if i1 < i2 {
        assert(i1 * ps + ps <= i2 * ps) by (nonlinear_arith)
            requires i1 < i2, ps >= 0;
    } else {
        assert(i2 * ps + ps <= i1 * ps) by (nonlinear_arith)
            requires i2 < i1, ps >= 0;
    }
}

/// How `put_pixel` at `(x0, y0)` changes pixel `(x, y)` of a non-empty buffer.
pub proof fn lemma_put_pixel_effect(
    data: Seq<u8>, w: int, h: int, ps: int, x0: int, y0: int, c: Seq<u8>, x: int, y: int,
)
    requires
        data.len() == w * h * ps,
        data.len() > 0,
        0 <= x0 < w,
        0 <= y0 < h,
        0 <= x < w,
        0 <= y < h,
        0 <= ps <= c.len(),
    ensures
        put_pixel(data, w, h, ps, x0, y0, c).len() == data.len(),
        pixel_bytes(put_pixel(data, w, h, ps, x0, y0, c), w, ps, x, y) == (
            if x == x0 && y == y0 { c.take(ps) } else { pixel_bytes(data, w, ps, x, y) }),
{
    lemma_pixel_in_buffer(x0, y0, w, h, ps);
    lemma_pixel_in_buffer(x, y, w, h, ps);
    let after = put_pixel(data, w, h, ps, x0, y0, c);
    if x == x0 && y == y0 {
        assert(pixel_bytes(after, w, ps, x, y) =~= c.take(ps));
    } else {
        lemma_distinct_pixels_disjoint(x0, y0, x, y, w, ps);
        assert(pixel_bytes(after, w, ps, x, y) =~= pixel_bytes(data, w, ps, x, y));
    }
}

/// Reading a pixel back after `set`: the pixel written holds the first `pixel_size`
/// channels of the color, and every other pixel keeps its bytes.
pub proof fn law_pixel_after_set(img: TgaImage, x: int, y: int, x2: int, y2: int, c: TgaColor)
    requires
        img.wf(),
        img.writes_at(x, y),
        img.spec_pixel_size() <= 4,
        0 <= x2 < img.spec_width(),
        0 <= y2 < img.spec_height(),
    ensures
        pixel_bytes(img.data_with_pixel(x, y, c.channels()), img.spec_width() as int,
            img.spec_pixel_size() as int, x2, y2) == (if x2 == x && y2 == y {
                c.channels().take(img.spec_pixel_size() as int)
            } else {
                img.pixel(x2, y2)
            }),
{
    c.lemma_channels_len();
    lemma_put_pixel_effect(img.spec_data(), img.spec_width() as int, img.spec_height() as int,
        img.spec_pixel_size() as int, x, y, c.channels(), x2, y2);
}

/// How painting the points `pts`, all inside the image, changes pixel `(x, y)`.
pub proof fn lemma_put_pixels_effect(
    data: Seq<u8>, w: int, h: int, ps: int, pts: Seq<(usize, usize)>, c: Seq<u8>, x: int, y: int,
)
    requires
        data.len() == w * h * ps,
        data.len() > 0,
        0 <= x < w,
        0 <= y < h,
        0 <= ps <= c.len(),
        w <= usize::MAX,
        h <= usize::MAX,
        forall|i: int| 0 <= i < pts.len() ==> (#[trigger] pts[i]).0 < w && pts[i].1 < h,
    ensures
        put_pixels(data, w, h, ps, pts, c).len() == data.len(),
        pixel_bytes(put_pixels(data, w, h, ps, pts, c), w, ps, x, y) == (
            if pts.contains((x as usize, y as usize)) { c.take(ps) } else { pixel_bytes(data, w, ps, x, y) }),
    decreases pts.len(),
{
    if pts.len() > 0 {
        let init = pts.drop_last();
        let p = pts.last();
        assert forall|i: int| 0 <= i < init.len() implies (#[trigger] init[i]).0 < w && init[i].1 < h by {
            assert(init[i] == pts[i]);
        }
        lemma_put_pixels_effect(data, w, h, ps, init, c, x, y);
        let before = put_pixels(data, w, h, ps, init, c);
        assert(p == pts[pts.len() - 1]);
        lemma_put_pixel_effect(before, w, h, ps, p.0 as int, p.1 as int, c, x, y);
        let q = (x as usize, y as usize);
        assert(pts.contains(q) <==> (init.contains(q) || p == q)) by {
            if init.contains(q) {
                let i = choose|i: int| 0 <= i < init.len() && init[i] == q;
                assert(pts[i] == q);
            }
            if pts.contains(q) {
                let i = choose|i: int| 0 <= i < pts.len() && pts[i] == q;
                if i < pts.len() - 1 {
                    assert(init[i] == q);
                }
            }
            if p == q {
                assert(pts[pts.len() - 1] == q);
            }
        }
    }
}

/// Flipping exchanges rows: pixel `(x, r)` of the flipped buffer is pixel
/// `(x, h - 1 - r)` of the buffer before, for every pixel of a `w` by `h` image.
pub proof fn law_flip_rows(data: Seq<u8>, w: int, h: int, ps: int, x: int, r: int)
    requires
        data.len() == w * h * ps,
        0 <= x < w,
        0 <= r < h,
        0 <= ps,
    ensures
        pixel_bytes(flipped_rows(data, h, w * ps), w, ps, x, r) == pixel_bytes(data, w, ps, x, h - 1 - r),
{
    let row = w * ps;
    let f = flipped_rows(data, h, row);
    let p = pixel_offset(x, r, w, ps);
    let q = pixel_offset(x, h - 1 - r, w, ps);
    lemma_pixel_in_buffer(x, r, w, h, ps);
    lemma_pixel_in_buffer(x, h - 1 - r, w, h, ps);
    assert(data.len() == h * row) by (nonlinear_arith) requires data.len() == w * h * ps, row == w * ps;
    if ps > 0 {
        assert(row > 0) by (nonlinear_arith) requires row == w * ps, ps > 0, w > x, x >= 0;
        assert forall|a: int| 0 <= a < ps implies #[trigger] f[p + a] == data[q + a] by {
            let j = p + a;
            assert(j == r * row + (x * ps + a)) by (nonlinear_arith)
                requires j == (r * w + x) * ps + a, row == w * ps;
            assert(0 <= x * ps + a < row) by (nonlinear_arith)
                requires 0 <= x < w, 0 <= a < ps, row == w * ps;
            vstd::arithmetic::div_mod::lemma_fundamental_div_mod_converse(j, row, r, x * ps + a);
            assert((h - 1 - r) * row + (x * ps + a) == q + a) by (nonlinear_arith)
                requires q == ((h - 1 - r) * w + x) * ps, row == w * ps;
        }
    }
    assert forall|i: int| 0 <= i < ps implies #[trigger] pixel_bytes(f, w, ps, x, r)[i]
        == pixel_bytes(data, w, ps, x, h - 1 - r)[i] by {
        assert(f[p + i] == data[q + i]);
    }
    assert(pixel_bytes(f, w, ps, x, r) =~= pixel_bytes(data, w, ps, x, h - 1 - r));
}

/// Flipping the rows twice gives back the buffer flipped.
pub proof fn law_flip_twice(data: Seq<u8>, h: int, row: int)
    requires
        0 <= h,
        0 <= row,
        data.len() == h * row,
    ensures
        flipped_rows(flipped_rows(data, h, row), h, row) == data,
{
    let once = flipped_rows(data, h, row);
    let twice = flipped_rows(once, h, row);
    if row == 0 {
        assert(data.len() == 0) by (nonlinear_arith) requires data.len() == h * row, row == 0;
    } else {
        assert forall|j: int| 0 <= j < data.len() implies #[trigger] twice[j] == data[j] by {
            lemma_flip_index(j, h, row);
            let j2 = (h - 1 - j / row) * row + j % row;
            lemma_flip_index(j2, h, row);
        }
    }
    assert(twice =~= data);
}


/// A line drawn from `p1` to `p2` sets the same pixels, in the same order, as one
/// drawn from `p2` to `p1`.
pub proof fn law_line_symmetric(p1: (usize, usize), p2: (usize, usize))
    ensures
        line_points(p1, p2) == line_points(p2, p1),
{
    let ((a1, b1), (a2, b2)) = line_ends(p1, p2);
    let ((c1, d1), (c2, d2)) = line_ends(p2, p1);
    if a1 == a2 {
        assert(line_points(p1, p2) =~= line_points(p2, p1));
    } else {
        assert(a1 == c1 && b1 == d1 && a2 == c2 && b2 == d2);
        assert(line_points(p1, p2) =~= line_points(p2, p1));
    }
}

/// Every pixel of a line between two points of an image lies inside the image.
pub proof fn law_line_inside(p1: (usize, usize), p2: (usize, usize), w: int, h: int, k: int)
    requires
        p1.0 < w,
        p2.0 < w,
        p1.1 < h,
        p2.1 < h,
        0 <= k < line_points(p1, p2).len(),
    ensures
        line_points(p1, p2)[k].0 < w,
        line_points(p1, p2)[k].1 < h,
{
    let ((a1, b1), (a2, b2)) = line_ends(p1, p2);
    let run = a2 - a1;
    let rise = dist(b1, b2);
    let c = line_rise_after(k, run, rise);
    assert(0 <= c <= rise) by {
        assert(0 <= 2 * rise * k + run - 1) by (nonlinear_arith)
            requires rise >= 0, k >= 0, run >= 1;
        assert(2 * rise * k + run - 1 < (rise + 1) * (2 * run)) by (nonlinear_arith)
            requires 0 <= k < run, rise >= 0;
        vstd::arithmetic::div_mod::lemma_div_pos_is_pos(2 * rise * k + run - 1, 2 * run);
        vstd::arithmetic::div_mod::lemma_div_is_ordered(2 * rise * k + run - 1, (rise + 1) * (2 * run) - 1, 2 * run);
        assert((rise + 1) * (2 * run) - 1 == rise * (2 * run) + (2 * run - 1)) by (nonlinear_arith);
        vstd::arithmetic::div_mod::lemma_fundamental_div_mod_converse(
            (rise + 1) * (2 * run) - 1, 2 * run, rise, 2 * run - 1);
    }
}

/// What `draw_line` leaves in each pixel: the pixels of `line_points(p1, p2)` hold
/// the first `pixel_size` channels of the color, every other pixel keeps its bytes.
pub proof fn law_line_pixels(img: TgaImage, p1: (usize, usize), p2: (usize, usize), c: TgaColor, x: int, y: int)
    requires
        img.wf(),
        img.spec_data().len() > 0,
        img.spec_pixel_size() <= 4,
        p1.0 < img.spec_width(),
        p2.0 < img.spec_width(),
        p1.1 < img.spec_height(),
        p2.1 < img.spec_height(),
        0 <= x < img.spec_width(),
        0 <= y < img.spec_height(),
    ensures
        pixel_bytes(
            put_pixels(img.spec_data(), img.spec_width() as int, img.spec_height() as int,
                img.spec_pixel_size() as int, line_points(p1, p2), c.channels()),
            img.spec_width() as int, img.spec_pixel_size() as int, x, y,
        ) == (if line_points(p1, p2).contains((x as usize, y as usize)) {
            c.channels().take(img.spec_pixel_size() as int)
        } else {
            img.pixel(x, y)
        }),
{
    let w = img.spec_width() as int;
    let h = img.spec_height() as int;
    let pts = line_points(p1, p2);
    c.lemma_channels_len();
    assert forall|i: int| 0 <= i < pts.len() implies (#[trigger] pts[i]).0 < w && pts[i].1 < h by {
        law_line_inside(p1, p2, w, h, i);
    }
    lemma_put_pixels_effect(img.spec_data(), w, h, img.spec_pixel_size() as int, pts, c.channels(), x, y);
}

/// The rounded minor step stays within half a pixel of the exact one.
pub proof fn lemma_rise_rounding(k: int, run: int, rise: int)
    requires
        run > 0,
        0 <= rise,
        0 <= k,
    ensures
        -run <= 2 * run * line_rise_after(k, run, rise) - 2 * rise * k <= run,
{
    let num = 2 * rise * k + run - 1;
    let c = line_rise_after(k, run, rise);
    vstd::arithmetic::div_mod::lemma_fundamental_div_mod(num, 2 * run);
    vstd::arithmetic::div_mod::lemma_mod_pos_bound(num, 2 * run);
    assert(-run <= 2 * run * c - 2 * rise * k <= run) by (nonlinear_arith)
        requires
            num == (2 * run) * c + num % (2 * run),
            0 <= num % (2 * run) < 2 * run,
            num == 2 * rise * k + run - 1;
}

/// The pixels of a line follow the segment between the end points. For a line that
/// runs more than it rises, the `k`-th pixel has `x` one more per step from the end
/// point with the smaller `x`, and its `y` is within half a pixel of the segment's
/// `y` there; for a steep line the same holds with `x` and `y` exchanged.
pub proof fn law_line_follows_segment(p1: (usize, usize), p2: (usize, usize), k: int)
    requires
        0 <= k < line_points(p1, p2).len(),
    ensures
        ({
            let pt = line_points(p1, p2)[k];
            if dist(p1.0 as int, p2.0 as int) >= dist(p1.1 as int, p2.1 as int) {
                let (s, e) = if p1.0 <= p2.0 { (p1, p2) } else { (p2, p1) };
                let run = e.0 - s.0;
                &&& line_points(p1, p2).len() == run
                &&& pt.0 == s.0 + k
                &&& -run <= 2 * run * (pt.1 - s.1) - 2 * (e.1 - s.1) * k <= run
            } else {
                let (s, e) = if p1.1 <= p2.1 { (p1, p2) } else { (p2, p1) };
                let run = e.1 - s.1;
                &&& line_points(p1, p2).len() == run
                &&& pt.1 == s.1 + k
                &&& -run <= 2 * run * (pt.0 - s.0) - 2 * (e.0 - s.0) * k <= run
            }
        }),
{
    let ((a1, b1), (a2, b2)) = line_ends(p1, p2);
    let run = a2 - a1;
    let rise = dist(b1, b2);
    lemma_rise_rounding(k, run, rise);
    let c = line_rise_after(k, run, rise);
    assert(0 <= c <= rise) by {
        assert(0 <= 2 * rise * k + run - 1) by (nonlinear_arith)
            requires rise >= 0, k >= 0, run >= 1;
        vstd::arithmetic::div_mod::lemma_div_pos_is_pos(2 * rise * k + run - 1, 2 * run);
        assert(2 * run * c <= 2 * rise * k + run);
        assert(c <= rise) by (nonlinear_arith)
            requires 2 * run * c <= 2 * rise * k + run, k < run, run > 0, rise >= 0;
    }
    if b2 > b1 {
        assert(2 * run * (c) - 2 * (b2 - b1) * k == 2 * run * c - 2 * rise * k);
    } else {
        assert(2 * run * (-c) - 2 * (b2 - b1) * k == -(2 * run * c - 2 * rise * k)) by (nonlinear_arith)
            requires rise == b1 - b2;
    }
}

/// An uncompressed file is read back as exactly the pixel data that follows its
/// header: for any header with data type 2 or 3 and 1, 3 or 4 bytes per pixel,
/// and pixel data of exactly `width * height * pixel_size` bytes, followed by
/// anything at all (nothing, a footer, ...), reading gives the header's size and
/// that data.
pub proof fn law_read_uncompressed(hd: TGAHeader, data: Seq<u8>, rest: Seq<u8>)
    requires
        hd.datatypecode == 2 || hd.datatypecode == 3,
        (hd.bitsperpixel as usize) >> 3 == 1 || (hd.bitsperpixel as usize) >> 3 == 3
            || (hd.bitsperpixel as usize) >> 3 == 4,
        data.len() == hd.width * hd.height * ((hd.bitsperpixel as usize) >> 3),
        data.len() <= usize::MAX,
    ensures
        tga_decode(header_bytes(hd) + data + rest) == Ok::<(usize, usize, usize, Seq<u8>), TgaError>((
            hd.width as usize, hd.height as usize, (hd.bitsperpixel as usize) >> 3, data)),
{
    let bytes = header_bytes(hd) + data + rest;
    law_header_roundtrip(hd, data + rest);
    assert(bytes =~= header_bytes(hd) + (data + rest));
    let w = hd.width as usize;
    let h = hd.height as usize;
    let ps = (hd.bitsperpixel as usize) >> 3;
    assert(h * w * ps == w * h * ps) by (nonlinear_arith);
    assert(parse_header(bytes) == hd);
    assert(bytes.subrange(18, 18 + data.len() as int) =~= data);
}

/// What the bytes of a written file say: the data type code is 3 (11 with
/// run-length encoding) exactly for one byte per pixel, and 2 (10) otherwise; the
/// width and height are stored little-endian at bytes 12 and 14, the bits per pixel
/// at byte 16 and the origin flag at byte 17; the pixel data follows unchanged, then
/// eight zero bytes and the 18-byte footer.
pub proof fn law_written_bytes(w: usize, h: usize, ps: usize, data: Seq<u8>, flip: bool, rle: bool)
    ensures
        ({
            let out = tga_encode(w, h, ps, data, flip, rle);
            &&& out.len() == 18 + data.len() + 26
            &&& (out[2] == 3 || out[2] == 11) <==> ps == 1
            &&& (out[2] == 2 || out[2] == 10) <==> ps != 1
            &&& (out[2] == 10 || out[2] == 11) <==> rle
            &&& out[0] == 0 && out[1] == 0
            &&& out[12] + 256 * out[13] == w % 65536
            &&& out[14] + 256 * out[15] == h % 65536
            &&& out[16] == (ps % 32) * 8
            &&& out[17] == (if flip { 0u8 } else { 32u8 })
            &&& out.subrange(18, 18 + data.len() as int) == data
            &&& forall|i: int| 18 + data.len() <= i < 26 + data.len() ==> out[i] == 0
            &&& out.subrange(26 + data.len() as int, 44 + data.len() as int) == seq![
                84u8, 82, 85, 69, 86, 73, 83, 73, 79, 78, 45, 88, 70, 73, 76, 69, 46, 0]
        }),
{
    let hd = written_header(w, h, ps, flip, rle);
    let out = tga_encode(w, h, ps, data, flip, rle);
    let b = header_bytes(hd);
    assert(out =~= b + data + Seq::new(8, |i: int| 0u8) + tga_footer());
    assert(b[12] + 256 * b[13] == hd.width);
    assert(b[14] + 256 * b[15] == hd.height);
    assert((w as u16) == w % 65536) by (bit_vector);
    assert((h as u16) == h % 65536) by (bit_vector);
    assert(((ps as u8) << 3u8) == (ps % 32) * 8) by (bit_vector);
    assert(out.subrange(18, 18 + data.len() as int) =~= data);
    assert(out.subrange(26 + data.len() as int, 44 + data.len() as int) =~= tga_footer());
}

/// Writing an image without run-length encoding and reading the bytes back gives
/// the same width, height, pixel size and pixel data, whether or not `flip` is set.
pub proof fn law_write_then_read(img: TgaImage, flip: bool)
    requires
        img.wf(),
        img.spec_pixel_size() == 1 || img.spec_pixel_size() == 3 || img.spec_pixel_size() == 4,
        img.spec_width() <= 0xffff,
        img.spec_height() <= 0xffff,
    ensures
        tga_decode(tga_encode(img.spec_width(), img.spec_height(), img.spec_pixel_size(),
            img.spec_data(), flip, false)) == Ok::<(usize, usize, usize, Seq<u8>), TgaError>((
                img.spec_width(), img.spec_height(), img.spec_pixel_size(), img.spec_data())),
{
    let w = img.spec_width();
    let h = img.spec_height();
    let ps = img.spec_pixel_size();
    let data = img.spec_data();
    let hd = written_header(w, h, ps, flip, false);
    let rest = data + Seq::new(8, |i: int| 0u8) + tga_footer();
    let bytes = tga_encode(w, h, ps, data, flip, false);
    assert(bytes =~= header_bytes(hd) + rest);
    law_header_roundtrip(hd, rest);
    let th = parse_header(bytes);
    assert(th == hd);
    assert(th.width as usize == w);
    assert(th.height as usize == h);
    let bpp = (ps as u8) << 3;
    assert(bpp == hd.bitsperpixel);
    if ps == 1 {
        assert(((1u8 << 3u8) as usize) >> 3usize == 1usize) by (bit_vector);
    } else if ps == 3 {
        assert(((3u8 << 3u8) as usize) >> 3usize == 3usize) by (bit_vector);
    } else {
        assert(((4u8 << 3u8) as usize) >> 3usize == 4usize) by (bit_vector);
    }
    assert((th.bitsperpixel as usize) >> 3 == ps);
    assert(h * w * ps == w * h * ps) by (nonlinear_arith);
    assert(bytes.subrange(18, 18 + data.len() as int) =~= data);
}

} // verus!
