use pepeline::buffer::ArrayDType;
use pepeline::decode::{
    decoder, image_decode, plan_read, raster_from_f32, raster_from_u16, raster_from_u8,
    sniff_format, Container, Depth, NativeLayout, ReadPlan,
};
use pepeline::enums::{ImgColor, ImgFormat};
use pepeline::errors::PixelError;

fn png(img: image::DynamicImage) -> Vec<u8> {
    let mut out = std::io::Cursor::new(Vec::new());
    img.write_to(&mut out, image::ImageFormat::Png).unwrap();
    out.into_inner()
}

fn rgb_png() -> Vec<u8> {
    // 2 rows, 1 column
    let img = image::RgbImage::from_raw(1, 2, vec![255, 0, 0, 10, 20, 30]).unwrap();
    png(image::DynamicImage::ImageRgb8(img))
}

fn gray16_png() -> Vec<u8> {
    let img: image::ImageBuffer<image::Luma<u16>, Vec<u16>> =
        image::ImageBuffer::from_raw(2, 1, vec![0, 65535]).unwrap();
    png(image::DynamicImage::ImageLuma16(img))
}

fn u8_parts(a: ArrayDType) -> (Vec<usize>, Vec<u8>) {
    match a {
        ArrayDType::U8(b) => (b.shape(), b.into_raw_vec()),
        _ => panic!("expected eight-bit samples"),
    }
}

fn float_parts(a: ArrayDType) -> (Vec<usize>, Vec<f32>) {
    match a {
        ArrayDType::F32(b) => (
            b.shape(),
            b.into_raw_vec().into_iter().map(f32::from_bits).collect(),
        ),
        _ => panic!("expected normalised samples"),
    }
}

fn float_png() -> Vec<u8> {
    let img: image::ImageBuffer<image::Rgb<u16>, Vec<u16>> =
        image::ImageBuffer::from_raw(1, 1, vec![0, 32768, 65535]).unwrap();
    png(image::DynamicImage::ImageRgb16(img))
}

fn u16_parts(a: ArrayDType) -> (Vec<usize>, Vec<u16>) {
    match a {
        ArrayDType::U16(b) => (b.shape(), b.into_raw_vec()),
        _ => panic!("expected sixteen-bit samples"),
    }
}

#[test]
fn magic_bytes_pick_the_family() {
    assert_eq!(sniff_format(b"8BPS\x00\x01"), Ok(Container::Psd));
    assert_eq!(
        sniff_format(&[0xFF, 0xD8, 0xFF, 0xE0, 0, 16, b'J', b'F', b'I', b'F']),
        Ok(Container::JpegTagged)
    );
    assert_eq!(
        sniff_format(&[0xFF, 0xD8, 0xFF, 0xE1, 0, 16, b'E', b'x', b'i', b'f']),
        Ok(Container::JpegTagged)
    );
    assert_eq!(
        sniff_format(&[0xFF, 0xD8, 0xFF, 0xE0, 0, 16, b'A', b'd', b'o', b'b']),
        Ok(Container::JpegBare)
    );
    assert_eq!(
        sniff_format(&[0xFF, 0xD8, 0xFF, 0xDB, 0, 16, b'J', b'F']),
        Ok(Container::Raster)
    );
    assert_eq!(sniff_format(&[0x89, b'P', b'N', b'G']), Ok(Container::Raster));
}

#[test]
fn too_few_bytes_cannot_be_told_apart() {
    assert_eq!(sniff_format(&[]), Err(PixelError::FormatDetection));
    assert_eq!(sniff_format(b"8BP"), Err(PixelError::FormatDetection));
    assert_eq!(
        sniff_format(&[0xFF, 0xD8, 0xFF, 0xE0, 0, 16, b'J']),
        Err(PixelError::FormatDetection)
    );
    assert_eq!(
        decoder(&[], ImgColor::DYNAMIC, ImgFormat::U8).err(),
        Some(PixelError::FormatDetection)
    );
    assert_eq!(
        decoder(b"8BP", ImgColor::RGB, ImgFormat::DYNAMIC).err(),
        Some(PixelError::FormatDetection)
    );
}

#[test]
fn plan_keeps_what_the_source_has_when_the_request_is_open() {
    assert_eq!(
        plan_read(NativeLayout::Rgb8, ImgColor::DYNAMIC, ImgFormat::DYNAMIC),
        ReadPlan { layout: ImgColor::RGB, read: Depth::Eight, out: Depth::Eight }
    );
    assert_eq!(
        plan_read(NativeLayout::LumaA16, ImgColor::DYNAMIC, ImgFormat::DYNAMIC),
        ReadPlan { layout: ImgColor::AGRAY, read: Depth::Sixteen, out: Depth::Sixteen }
    );
    assert_eq!(
        plan_read(NativeLayout::Rgba32F, ImgColor::DYNAMIC, ImgFormat::DYNAMIC),
        ReadPlan { layout: ImgColor::RGBA, read: Depth::Float, out: Depth::Float }
    );
    assert_eq!(
        plan_read(NativeLayout::Luma8, ImgColor::DYNAMIC, ImgFormat::U16),
        ReadPlan { layout: ImgColor::GRAY, read: Depth::Eight, out: Depth::Sixteen }
    );
}

#[test]
fn plan_reads_gray_from_float_sources_in_eight_bits() {
    assert_eq!(
        plan_read(NativeLayout::Rgb32F, ImgColor::GRAY, ImgFormat::DYNAMIC),
        ReadPlan { layout: ImgColor::GRAY, read: Depth::Eight, out: Depth::Eight }
    );
    assert_eq!(
        plan_read(NativeLayout::Rgba32F, ImgColor::AGRAY, ImgFormat::F32),
        ReadPlan { layout: ImgColor::AGRAY, read: Depth::Eight, out: Depth::Float }
    );
    assert_eq!(
        plan_read(NativeLayout::Rgb32F, ImgColor::RGBA, ImgFormat::U8),
        ReadPlan { layout: ImgColor::RGBA, read: Depth::Float, out: Depth::Eight }
    );
    assert_eq!(
        plan_read(NativeLayout::Luma16, ImgColor::RGB, ImgFormat::U8),
        ReadPlan { layout: ImgColor::RGB, read: Depth::Sixteen, out: Depth::Eight }
    );
}

#[test]
fn samples_get_their_shape_and_depth() {
    let (shape, samples) =
        u8_parts(raster_from_u8(vec![1, 2, 3, 4, 5, 6], 1, 2, ImgColor::RGB, Depth::Eight).unwrap());
    assert_eq!((shape, samples), (vec![1, 2, 3], vec![1, 2, 3, 4, 5, 6]));
    let (shape, samples) =
        u16_parts(raster_from_u8(vec![0, 1, 255, 2], 2, 2, ImgColor::GRAY, Depth::Sixteen).unwrap());
    assert_eq!((shape, samples), (vec![2, 2], vec![0, 257, 65535, 514]));
    let (shape, samples) =
        u8_parts(raster_from_u16(vec![0, 65535, 257, 128], 1, 2, ImgColor::AGRAY, Depth::Eight).unwrap());
    assert_eq!((shape, samples), (vec![1, 2, 2], vec![0, 255, 1, 0]));
    let (shape, samples) =
        u8_parts(raster_from_u16(vec![129, 32768], 1, 2, ImgColor::GRAY, Depth::Eight).unwrap());
    assert_eq!((shape, samples), (vec![1, 2], vec![1, 128]));
    let (shape, samples) =
        u16_parts(raster_from_u16(vec![9; 8], 1, 2, ImgColor::RGBA, Depth::Sixteen).unwrap());
    assert_eq!((shape, samples), (vec![1, 2, 4], vec![9; 8]));
    assert_eq!(
        raster_from_u8(vec![1, 2, 3], 1, 2, ImgColor::RGB, Depth::Eight).err(),
        Some(PixelError::ShapeMismatch)
    );
    let (shape, samples) =
        float_parts(raster_from_u8(vec![0, 51, 255], 1, 1, ImgColor::RGB, Depth::Float).unwrap());
    assert_eq!((shape, samples), (vec![1, 1, 3], vec![0.0, 0.20000002, 1.0]));
    let (shape, samples) =
        float_parts(raster_from_u16(vec![0, 65535], 1, 2, ImgColor::GRAY, Depth::Float).unwrap());
    assert_eq!((shape, samples), (vec![1, 2], vec![0.0, 1.0]));
    let floats: Vec<u32> = [0.0f32, 0.5, 1.0].iter().map(|t| t.to_bits()).collect();
    let (shape, samples) =
        u8_parts(raster_from_f32(floats.clone(), 1, 1, ImgColor::RGB, Depth::Eight).unwrap());
    assert_eq!((shape, samples), (vec![1, 1, 3], vec![0, 128, 255]));
    let (shape, samples) =
        u16_parts(raster_from_f32(floats.clone(), 1, 1, ImgColor::RGB, Depth::Sixteen).unwrap());
    assert_eq!((shape, samples), (vec![1, 1, 3], vec![0, 32768, 65535]));
    let (shape, samples) =
        float_parts(raster_from_f32(floats.clone(), 1, 1, ImgColor::RGB, Depth::Float).unwrap());
    assert_eq!((shape, samples), (vec![1, 1, 3], vec![0.0, 0.5, 1.0]));
    assert_eq!(
        raster_from_f32(floats, 1, 1, ImgColor::RGBA, Depth::Float).err(),
        Some(PixelError::ShapeMismatch)
    );
    assert_eq!(
        raster_from_u16(vec![1, 2, 3], 1, 1, ImgColor::DYNAMIC, Depth::Sixteen).err(),
        Some(PixelError::UnsupportedConversion)
    );
}

#[test]
fn rgb_png_in_its_natural_layout() {
    let (shape, samples) =
        u8_parts(image_decode(&rgb_png(), ImgColor::DYNAMIC, ImgFormat::DYNAMIC).unwrap());
    assert_eq!((shape, samples), (vec![2, 1, 3], vec![255, 0, 0, 10, 20, 30]));
    let (shape, samples) =
        u8_parts(decoder(&rgb_png(), ImgColor::RGB, ImgFormat::U8).unwrap());
    assert_eq!((shape, samples), (vec![2, 1, 3], vec![255, 0, 0, 10, 20, 30]));
}

#[test]
fn rgb_png_with_alpha_added_and_widened() {
    let (shape, samples) =
        u8_parts(image_decode(&rgb_png(), ImgColor::RGBA, ImgFormat::DYNAMIC).unwrap());
    assert_eq!(
        (shape, samples),
        (vec![2, 1, 4], vec![255, 0, 0, 255, 10, 20, 30, 255])
    );
    let (shape, samples) =
        u16_parts(image_decode(&rgb_png(), ImgColor::RGB, ImgFormat::U16).unwrap());
    assert_eq!(
        (shape, samples),
        (vec![2, 1, 3], vec![65535, 0, 0, 2570, 5140, 7710])
    );
}

#[test]
fn rgb_png_as_gray_is_rank_two() {
    let a = image_decode(&rgb_png(), ImgColor::GRAY, ImgFormat::U8).unwrap();
    let (shape, samples) = u8_parts(a);
    assert_eq!(shape, vec![2, 1]);
    assert_eq!(samples.len(), 2);
    let (shape, samples) =
        u8_parts(image_decode(&rgb_png(), ImgColor::AGRAY, ImgFormat::U8).unwrap());
    assert_eq!(shape, vec![2, 1, 2]);
    assert_eq!(samples[1], 255);
    assert_eq!(samples[3], 255);
}

#[test]
fn sixteen_bit_gray_png() {
    let (shape, samples) =
        u16_parts(image_decode(&gray16_png(), ImgColor::DYNAMIC, ImgFormat::DYNAMIC).unwrap());
    assert_eq!((shape, samples), (vec![1, 2], vec![0, 65535]));
    let (shape, samples) =
        u8_parts(image_decode(&gray16_png(), ImgColor::GRAY, ImgFormat::U8).unwrap());
    assert_eq!((shape, samples), (vec![1, 2], vec![0, 255]));
    let (shape, samples) =
        u16_parts(image_decode(&gray16_png(), ImgColor::RGB, ImgFormat::DYNAMIC).unwrap());
    assert_eq!((shape, samples), (vec![1, 2, 3], vec![0, 0, 0, 65535, 65535, 65535]));
}

#[test]
fn normalised_samples_from_integer_sources() {
    let (shape, samples) =
        float_parts(image_decode(&rgb_png(), ImgColor::RGB, ImgFormat::F32).unwrap());
    assert_eq!(shape, vec![2, 1, 3]);
    let expected: Vec<f32> = [255u8, 0, 0, 10, 20, 30]
        .iter()
        .map(|b| if *b == 0 { 0.0 } else { *b as f32 * 0.00392156862745f32 })
        .collect();
    assert_eq!(samples, expected);
    let (shape, samples) =
        float_parts(image_decode(&float_png(), ImgColor::DYNAMIC, ImgFormat::F32).unwrap());
    assert_eq!(shape, vec![1, 1, 3]);
    assert_eq!(samples, vec![0.0, 32768.0 / 65535.0, 1.0]);
    let (shape, samples) =
        float_parts(image_decode(&gray16_png(), ImgColor::RGBA, ImgFormat::F32).unwrap());
    assert_eq!(shape, vec![1, 2, 4]);
    assert_eq!(samples, vec![0.0, 0.0, 0.0, 1.0, 1.0, 1.0, 1.0, 1.0]);
}

#[test]
fn unreadable_raster_is_a_decode_error() {
    assert_eq!(
        image_decode(b"not an image at all", ImgColor::RGB, ImgFormat::U8).err(),
        Some(PixelError::Decode)
    );
    let mut cut = rgb_png();
    cut.truncate(20);
    assert_eq!(
        decoder(&cut, ImgColor::RGB, ImgFormat::U8).err(),
        Some(PixelError::Decode)
    );
}
