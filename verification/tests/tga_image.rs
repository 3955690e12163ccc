use tiny_renderer::tga_image::decode_rle;
use tiny_renderer::tga_image::TGAHeader;
use tiny_renderer::tga_image::TgaColor;
use tiny_renderer::tga_image::TgaError;
use tiny_renderer::tga_image::TgaImage;

fn channels(c: &TgaColor) -> [u8; 4] {
    [c.get(0), c.get(1), c.get(2), c.get(3)]
}

#[test]
fn color_is_stored_bgra() {
    let mut c = TgaColor::new(1, 2, 3, 4);
    assert_eq!(channels(&c), [3, 2, 1, 4]);
    c.set(2, 9);
    assert_eq!(channels(&c), [3, 2, 9, 4]);
    assert_eq!(channels(&TgaColor::default()), [0, 0, 0, 0]);
}

#[test]
fn new_image_is_black() {
    let img = TgaImage::new(3, 2, TgaImage::RGB);
    assert_eq!(img.get_width(), 3);
    assert_eq!(img.get_height(), 2);
    assert_eq!(channels(&img.get(2, 1)), [0, 0, 0, 255]);
}

#[test]
fn set_then_get() {
    let mut img = TgaImage::new(3, 2, TgaImage::RGB);
    img.set(1, 1, &TgaColor::new(10, 20, 30, 40));
    assert_eq!(channels(&img.get(1, 1)), [30, 20, 10, 255]);
    assert_eq!(channels(&img.get(0, 1)), [0, 0, 0, 255]);
    assert_eq!(channels(&img.get(2, 0)), [0, 0, 0, 255]);
    let mut rgba = TgaImage::new(1, 1, TgaImage::RGBA);
    rgba.set(0, 0, &TgaColor::new(10, 20, 30, 40));
    assert_eq!(channels(&rgba.get(0, 0)), [30, 20, 10, 40]);
}

#[test]
fn set_outside_does_nothing() {
    let mut img = TgaImage::new(2, 2, TgaImage::GRAYSCALE);
    img.set(2, 0, &TgaColor::new(9, 9, 9, 9));
    img.set(0, 2, &TgaColor::new(9, 9, 9, 9));
    for x in 0..2 {
        for y in 0..2 {
            assert_eq!(img.get(x, y).get(0), 0);
        }
    }
    let mut empty = TgaImage::default();
    empty.set(0, 0, &TgaColor::new(9, 9, 9, 9));
    assert_eq!(empty.get_width(), 0);
}

#[test]
fn flip_reverses_rows() {
    let mut img = TgaImage::new(2, 3, TgaImage::GRAYSCALE);
    img.set(0, 0, &TgaColor::new(0, 0, 5, 0));
    img.set(1, 1, &TgaColor::new(0, 0, 6, 0));
    img.flip_vertically();
    assert_eq!(img.get(0, 2).get(0), 5);
    assert_eq!(img.get(0, 0).get(0), 0);
    assert_eq!(img.get(1, 1).get(0), 6);
    img.flip_vertically();
    assert_eq!(img.get(0, 0).get(0), 5);
    assert_eq!(img.get(0, 2).get(0), 0);
}

fn lit(img: &TgaImage) -> Vec<(usize, usize)> {
    let mut v = Vec::new();
    for y in 0..img.get_height() {
        for x in 0..img.get_width() {
            if img.get(x, y).get(0) != 0 {
                v.push((x, y));
            }
        }
    }
    v
}

#[test]
fn draw_shallow_line() {
    let mut img = TgaImage::new(5, 5, TgaImage::GRAYSCALE);
    img.draw_line((0, 0), (4, 2), &TgaColor::new(0, 0, 255, 0));
    assert_eq!(lit(&img), vec![(0, 0), (1, 0), (2, 1), (3, 1)]);
}

#[test]
fn draw_steep_line_and_reverse() {
    let white = TgaColor::new(255, 255, 255, 255);
    let mut img = TgaImage::new(4, 4, TgaImage::GRAYSCALE);
    img.draw_line((0, 0), (1, 3), &white);
    assert_eq!(lit(&img), vec![(0, 0), (0, 1), (1, 2)]);
    let mut rev = TgaImage::new(4, 4, TgaImage::GRAYSCALE);
    rev.draw_line((1, 3), (0, 0), &white);
    assert_eq!(lit(&rev), lit(&img));
}

#[test]
fn draw_descending_line() {
    let white = TgaColor::new(255, 255, 255, 255);
    let mut img = TgaImage::new(5, 5, TgaImage::GRAYSCALE);
    img.draw_line((0, 4), (4, 2), &white);
    assert_eq!(lit(&img), vec![(2, 3), (3, 3), (0, 4), (1, 4)]);
}

#[test]
fn draw_single_point_line_draws_nothing() {
    let white = TgaColor::new(255, 255, 255, 255);
    let mut img = TgaImage::new(3, 3, TgaImage::GRAYSCALE);
    img.draw_line((1, 1), (1, 1), &white);
    assert!(lit(&img).is_empty());
}

fn header(datatype: u8, w: u16, h: u16, bpp: u8) -> Vec<u8> {
    TGAHeader {
        datatypecode: datatype,
        width: w,
        height: h,
        bitsperpixel: bpp,
        ..TGAHeader::default()
    }
    .to_bytes()
}

#[test]
fn header_bytes_are_little_endian() {
    let h = TGAHeader {
        width: 0x0102,
        height: 0x0304,
        x_origin: 5,
        bitsperpixel: 24,
        imagedescriptor: 0x20,
        ..TGAHeader::default()
    };
    let b = h.to_bytes();
    assert_eq!(b.len(), 18);
    assert_eq!(&b[8..10], &[5, 0]);
    assert_eq!(&b[12..16], &[2, 1, 4, 3]);
    assert_eq!(b[16], 24);
    assert_eq!(b[17], 0x20);
    assert_eq!(TGAHeader::from_bytes(&b), h);
}

#[test]
fn write_layout() {
    let mut img = TgaImage::new(2, 1, TgaImage::RGB);
    img.set(1, 0, &TgaColor::new(1, 2, 3, 4));
    let out = img.write_tga_bytes(false, false);
    assert_eq!(out.len(), 18 + 6 + 8 + 18);
    assert_eq!(&out[0..18], &[0, 0, 2, 0, 0, 0, 0, 0, 0, 0, 0, 0, 2, 0, 1, 0, 24, 0x20]);
    assert_eq!(&out[18..24], &[0, 0, 0, 3, 2, 1]);
    assert_eq!(&out[24..32], &[0; 8]);
    assert_eq!(&out[32..], b"TRUEVISION-XFILE.\0");
    let flipped = img.write_tga_bytes(true, true);
    assert_eq!(flipped[2], 10);
    assert_eq!(flipped[17], 0);
    let gray = TgaImage::new(1, 1, TgaImage::GRAYSCALE);
    assert_eq!(gray.write_tga_bytes(false, false)[2], 3);
    assert_eq!(gray.write_tga_bytes(false, true)[2], 11);
}

#[test]
fn write_then_read() {
    let mut img = TgaImage::new(3, 2, TgaImage::RGBA);
    img.set(2, 1, &TgaColor::new(1, 2, 3, 4));
    img.set(0, 0, &TgaColor::new(5, 6, 7, 8));
    let bytes = img.write_tga_bytes(true, false);
    let mut back = TgaImage::default();
    assert_eq!(back.read_tga_bytes(&bytes), Ok(()));
    assert_eq!(back.get_width(), 3);
    assert_eq!(back.get_height(), 2);
    assert_eq!(channels(&back.get(2, 1)), [3, 2, 1, 4]);
    assert_eq!(channels(&back.get(0, 0)), [7, 6, 5, 8]);
    assert_eq!(channels(&back.get(1, 1)), [0, 0, 0, 0]);
}

#[test]
fn read_rle_image() {
    let mut bytes = header(11, 3, 1, 8);
    bytes.extend_from_slice(&[0x81, 7, 0x00, 9, 42, 42]);
    let mut img = TgaImage::default();
    assert_eq!(img.read_tga_bytes(&bytes), Ok(()));
    assert_eq!((img.get(0, 0).get(0), img.get(1, 0).get(0), img.get(2, 0).get(0)), (7, 7, 9));
}

#[test]
fn decode_rle_packets() {
    assert_eq!(decode_rle(&[0x01, 1, 2, 3, 4, 0x82, 9, 8], 5, 2), Some(vec![1, 2, 3, 4, 9, 8, 9, 8, 9, 8]));
    assert_eq!(decode_rle(&[0x83, 5], 3, 1), None);
    assert_eq!(decode_rle(&[0x02, 5, 6], 3, 1), None);
    assert_eq!(decode_rle(&[], 1, 1), None);
    assert_eq!(decode_rle(&[0x80, 5], 1, 1), Some(vec![5]));
}

#[test]
fn read_errors() {
    let mut img = TgaImage::new(1, 1, 1);
    assert_eq!(img.read_tga_bytes(&[0u8; 10]), Err(TgaError::HeaderTooShort));
    assert_eq!(img.read_tga_bytes(&header(2, 1, 1, 16)), Err(TgaError::UnsupportedPixelSize));
    assert_eq!(img.read_tga_bytes(&header(2, 2, 2, 8)), Err(TgaError::DataTooShort));
    let mut rle = header(10, 2, 1, 24);
    rle.extend_from_slice(&[0x82, 1, 2, 3]);
    assert_eq!(img.read_tga_bytes(&rle), Err(TgaError::CorruptRle));
    assert_eq!(img.read_tga_bytes(&header(10, 0, 3, 24)), Err(TgaError::CorruptRle));
    assert_eq!(img.read_tga_bytes(&header(1, 1, 1, 8)), Err(TgaError::UnknownDataType(1)));
    assert_eq!(img.get_width(), 1);
    let mut empty = header(3, 0, 5, 8);
    empty.push(1);
    assert_eq!(img.read_tga_bytes(&empty), Ok(()));
    assert_eq!(img.get_height(), 5);
}
