use stryke_office::value::{opt_i64, opt_u32, req_u64_img, to_json, Number, Value};

fn conv(j: &serde_json::Value) -> Value {
    match j {
        serde_json::Value::Null => Value::Null,
        serde_json::Value::Bool(b) => Value::Bool(*b),
        serde_json::Value::Number(n) => {
            if let Some(u) = n.as_u64() {
                Value::Number(Number::Unsigned(u))
            } else if let Some(i) = n.as_i64() {
                Value::Number(Number::Negative(i))
            } else {
                let bits = n.as_f64().unwrap().to_bits();
                Value::Number(Number::Float { bits, text: n.to_string() })
            }
        }
        serde_json::Value::String(s) => Value::Text(s.clone()),
        serde_json::Value::Array(a) => Value::Array(a.iter().map(conv).collect()),
        serde_json::Value::Object(o) => {
            Value::Object(o.iter().map(|(k, v)| (k.clone(), conv(v))).collect())
        }
    }
}

fn val(s: &str) -> Value {
    conv(&serde_json::from_str::<serde_json::Value>(s).unwrap())
}

fn js(v: &Value) -> serde_json::Value {
    serde_json::from_str(&to_json(v)).unwrap()
}

fn want(s: &str) -> serde_json::Value {
    serde_json::from_str(s).unwrap()
}

use stryke_office::barcode::{
    draw_bars, encodable, encode_1d, op_barcode_1d, op_barcode_qr, read_bar_style, read_level,
    read_quiet, read_scale, read_set, read_symbology, Level,
};
use stryke_office::base64::{base64_decode, base64_encode};
use stryke_office::color::{luma601, make_web_color, parse_color, read_background, Pixel};
use stryke_office::compose::{
    from_bytes, op_img_border, op_img_drop_shadow, op_img_median, op_img_montage, op_img_paste,
    pad_for_shadow, to_bytes,
};
use stryke_office::drawing::{
    draw_polygon, is_drawable, is_drawable_circle, is_drawable_ellipse, is_drawable_polygon,
    is_drawable_rect, op_img_draw_circle, op_img_draw_ellipse, op_img_draw_rect,
};
use stryke_office::frames::{
    answer_frames, answer_still, is_safe_picture, op_img_open_frames, Frame,
};
use stryke_office::imaging::{
    filter_of, info_json, op_img_convert, op_img_draw_polygon, op_img_draw_text_multiline,
    op_img_flip, op_img_noise, op_img_rotate, op_img_save_animated, op_img_watermark,
    pixelated_size, read_bounded, read_encoding, read_handles, read_nine, Channels, Encoding, Lcg, Sampling, Turn,
};
use stryke_office::measure::{
    op_img_compare, op_img_dominant_colors, op_img_extrema, op_img_histogram, running_totals,
    tone_bounds, Measure,
};
use stryke_office::media::{
    answer_picture, keep_picture, op_img_from_base64, op_img_to_base64, read_picture,
};
use stryke_office::morph::{
    op_img_box_blur, op_img_dilate, op_img_erode, op_img_merge, op_img_split,
};
use stryke_office::mutex::Mutex;
use stryke_office::placing::{new_size, op_img_crop, place, Placement};
use stryke_office::raster::{
    apply_alpha, apply_gradient, apply_tables, op_img_get_pixel, op_img_posterize, op_img_putalpha,
    op_img_replace_color, op_img_solarize, op_img_swap_channels, op_img_threshold, op_img_tint,
    op_img_transpose, op_img_transverse, op_img_trim, set_pixel, solid, Image,
};
use stryke_office::registry::Registry;
use stryke_office::shapes::{
    in_rrect, op_img_crop_circle, op_img_draw_rounded_rect, op_img_flood_fill,
    op_img_round_corners, RoundRect,
};

fn px(r: u8, g: u8, b: u8, a: u8) -> Pixel {
    Pixel { r, g, b, a }
}

fn flat(img: &Image) -> Vec<[u8; 4]> {
    img.rows.iter().flatten().map(|p| [p.r, p.g, p.b, p.a]).collect()
}

fn gray(rows: &[&[u8]]) -> Image {
    Image {
        width: rows[0].len() as u32,
        rows: rows.iter().map(|r| r.iter().map(|&v| px(v, v, v, 255)).collect()).collect(),
    }
}

fn first(img: &Image) -> Vec<u8> {
    img.rows.iter().flatten().map(|p| p.r).collect()
}

fn color(s: &str) -> [u8; 4] {
    let p = parse_color(Some(&val(s)));
    [p.r, p.g, p.b, p.a]
}

#[test]
fn colors_are_parsed() {
    assert_eq!(color(r##""#ff8000""##), [255, 128, 0, 255]);
    assert_eq!(color("\"##ff800040\""), [255, 128, 0, 64]);
    assert_eq!(color(r##""#fff""##), [0, 0, 0, 255]);
    assert_eq!(color("[1,2,258]"), [1, 2, 2, 255]);
    assert_eq!(color("7"), [0, 0, 0, 255]);
    let p = parse_color(None);
    assert_eq!([p.r, p.g, p.b, p.a], [0, 0, 0, 255]);
    let w = read_background(&val("{}"), "bg", "background");
    assert_eq!([w.r, w.g, w.b, w.a], [255, 255, 255, 255]);
    assert_eq!(make_web_color(1, 171, 255), "#01abff");
    assert_eq!(luma601(77, 77, 77), 77);
    assert_eq!(luma601(255, 0, 0), 76);
}

#[test]
fn pixels_are_set_and_read() {
    let mut img = solid(2, 2, px(0, 0, 0, 255));
    set_pixel(&mut img, 1, 0, px(9, 8, 7, 6));
    let p = op_img_get_pixel(&img, 1, 0).unwrap();
    assert_eq!([p.r, p.g, p.b, p.a], [9, 8, 7, 6]);
    assert_eq!(op_img_get_pixel(&img, 2, 0).err().unwrap(), "pixel (2,0) out of bounds");
    assert!(img.is_image());
    assert!(!Image { width: 3, rows: vec![vec![]] }.is_image());
}

#[test]
fn tones_change_pixel_by_pixel() {
    let img = gray(&[&[0, 100, 200, 255]]);
    assert_eq!(first(&op_img_threshold(&img, 128)), vec![0, 0, 255, 255]);
    assert_eq!(first(&op_img_posterize(&img, 2)), vec![0, 0, 255, 255]);
    assert_eq!(first(&op_img_solarize(&img, 128)), vec![0, 100, 55, 0]);
    assert_eq!(flat(&op_img_solarize(&img, 256)), flat(&img));
    let again = op_img_solarize(&op_img_solarize(&img, 0), 0);
    assert_eq!(first(&again), first(&img));
    assert_eq!(flat(&op_img_putalpha(&img, 9))[1], [100, 100, 100, 9]);
    assert_eq!(flat(&op_img_tint(&img, px(255, 0, 51, 255)))[2], [200, 0, 40, 255]);
    assert_eq!(
        first(&op_img_replace_color(&img, px(95, 95, 95, 255), px(1, 1, 1, 1), 5)),
        vec![0, 1, 200, 255]
    );
    let c = Image { width: 1, rows: vec![vec![px(1, 2, 3, 4)]] };
    assert_eq!(flat(&op_img_swap_channels(&c, "BGR"))[0], [3, 2, 1, 4]);
    let t: Vec<u8> = (0..=255).rev().collect();
    assert_eq!(first(&apply_tables(&img, &t, &t, &t)), vec![255, 155, 55, 0]);
    assert_eq!(flat(&apply_alpha(&c, &t))[0], [1, 2, 3, 251]);
}

#[test]
fn mirroring_twice_is_nothing() {
    let img = gray(&[&[1, 2, 3], &[4, 5, 6]]);
    let t = op_img_transpose(&img);
    assert_eq!((t.width, first(&t)), (2, vec![1, 4, 2, 5, 3, 6]));
    assert_eq!(first(&op_img_transpose(&t)), first(&img));
    let v = op_img_transverse(&img);
    assert_eq!((v.width, first(&v)), (2, vec![6, 3, 5, 2, 4, 1]));
    assert_eq!(first(&op_img_transverse(&v)), first(&img));
}

#[test]
fn borders_are_trimmed() {
    let img = gray(&[&[9, 9, 9, 9], &[9, 1, 2, 9], &[9, 9, 9, 9]]);
    let t = op_img_trim(&img, 0);
    assert_eq!((t.width, first(&t)), (2, vec![1, 2]));
    assert_eq!(first(&op_img_trim(&img, 255)), first(&img));
}

#[test]
fn images_are_measured() {
    let img = gray(&[&[5, 5, 7]]);
    let h = op_img_histogram(&img, Measure::Lightness);
    assert_eq!((h[5], h[7], h[0]), (2, 1, 0));
    assert_eq!(tone_bounds(&h, 0), (5, 7));
    assert_eq!(running_totals(&h)[255], 3);
    assert_eq!(op_img_extrema(&img, Measure::Red), (5, 7));
    let d = op_img_dominant_colors(&img, 3);
    assert_eq!(js(&d[0]), want(r##"{"r":8,"g":8,"b":8,"hex":"#080808","count":3}"##));
    let c = op_img_compare(&img, &gray(&[&[5, 6, 7]]));
    assert_eq!((c.squares, c.max_diff), (3, 1));
    assert_eq!(flat(&c.diff)[1], [1, 1, 1, 255]);
    assert_eq!(op_img_compare(&img, &img).max_diff, 0);
}

#[test]
fn channels_come_apart_and_together() {
    let img = Image { width: 2, rows: vec![vec![px(1, 2, 3, 4), px(5, 6, 7, 8)]] };
    let p = op_img_split(&img);
    assert_eq!(first(&p.g), vec![2, 6]);
    let back = op_img_merge(&p.r, &p.g, &p.b, Some(&p.a));
    assert_eq!(flat(&back), flat(&img));
    assert_eq!(flat(&op_img_merge(&p.r, &p.g, &p.b, None))[0], [1, 2, 3, 255]);
}

#[test]
fn light_grows_and_shrinks() {
    let img = gray(&[&[0, 0, 0, 0], &[0, 9, 0, 0], &[0, 0, 0, 0]]);
    assert_eq!(first(&op_img_dilate(&img, 1)), vec![9, 9, 9, 0, 9, 9, 9, 0, 9, 9, 9, 0]);
    assert_eq!(first(&op_img_erode(&img, 1)), vec![0; 12]);
    assert_eq!(first(&op_img_box_blur(&gray(&[&[0, 9, 0]]), 1)), vec![3, 3, 3]);
}

#[test]
fn shapes_are_drawn() {
    assert!(in_rrect(0, 1, 0, 0, 4, 4, 1) && !in_rrect(0, 0, 0, 0, 10, 10, 5));
    let img = solid(4, 4, px(0, 0, 0, 255));
    let s = RoundRect { x: 1, y: 1, w: 2, h: 2, r: 0, fill: true, stroke: 1 };
    let d = op_img_draw_rounded_rect(&img, &s, px(255, 255, 255, 255));
    assert_eq!(first(&d).iter().filter(|&&v| v == 255).count(), 4);
    let c = op_img_round_corners(&solid(9, 9, px(1, 1, 1, 255)), 4);
    assert_eq!((c.rows[0][0].a, c.rows[4][4].a), (0, 255));
    let o = op_img_crop_circle(&solid(9, 9, px(1, 1, 1, 255)));
    assert_eq!((o.rows[0][0].a, o.rows[4][4].a), (0, 255));
}

#[test]
fn a_flood_stops_at_other_colors() {
    let img = gray(&[&[1, 1, 9, 1], &[1, 9, 9, 1]]);
    let f = op_img_flood_fill(&img, 0, 0, px(5, 5, 5, 255), 0);
    assert_eq!(first(&f), vec![5, 5, 9, 1, 5, 9, 9, 1]);
    assert_eq!(first(&op_img_flood_fill(&img, 9, 9, px(5, 5, 5, 255), 0)), first(&img));
    let near = op_img_flood_fill(&img, 0, 0, px(2, 2, 2, 255), 3);
    assert_eq!(first(&near), vec![2, 2, 9, 1, 2, 9, 9, 1]);
}

#[test]
fn base64_comes_back() {
    assert_eq!(base64_encode(b""), "");
    assert_eq!(base64_encode(b"M"), "TQ==");
    assert_eq!(base64_encode(b"Ma"), "TWE=");
    assert_eq!(base64_encode(b"Man"), "TWFu");
    for n in 0..40u8 {
        let data: Vec<u8> = (0..n).map(|i| i.wrapping_mul(37)).collect();
        assert_eq!(base64_decode(&base64_encode(&data)).unwrap(), data);
    }
    assert_eq!(base64_decode("TW\nFu").unwrap(), b"Man");
    assert_eq!(base64_decode("T*==").err().unwrap(), "invalid base64 character");
}

#[test]
fn handles_count_up() {
    let m = Mutex::new(Registry::new());
    let a = m.lock().insert_image("one");
    let b = m.lock().insert_image("two");
    assert_eq!((a, b), (1, 2));
    let mut reg = m.lock();
    assert_eq!(reg.with_image(1), Ok(&"one"));
    assert_eq!(reg.take_image(1), Ok("one"));
    assert_eq!(reg.with_image(1).err().unwrap(), "unknown image handle: 1");
    reg.put_image(1, "three");
    assert!(reg.op_img_close(1) && !reg.op_img_close(1));
    assert_eq!(reg.insert_image("four"), 3);
}

#[test]
fn bytes_give_images_back() {
    let img = Image { width: 2, rows: vec![vec![px(1, 2, 3, 4), px(5, 6, 7, 8)]] };
    let b = to_bytes(&img);
    assert_eq!(b, vec![1, 2, 3, 4, 5, 6, 7, 8]);
    assert_eq!(flat(&from_bytes(&b, 2, 1)), flat(&img));
}

#[test]
fn images_are_pasted() {
    let base = solid(3, 2, px(10, 10, 10, 255));
    let top = Image {
        width: 2,
        rows: vec![vec![px(200, 0, 0, 255), px(0, 200, 0, 0)], vec![px(0, 0, 200, 128), px(1, 1, 1, 255)]],
    };
    let r = op_img_paste(&base, &top, 2, -1);
    assert_eq!(flat(&r)[2], [4, 4, 105, 254]);
    assert_eq!(flat(&r)[0], [10, 10, 10, 255]);
    let r = op_img_paste(&base, &top, 0, 0);
    assert_eq!(flat(&r)[0], [200, 0, 0, 255]);
    assert_eq!(flat(&r)[1], [10, 10, 10, 255]);
    assert_eq!(flat(&r)[4], [1, 1, 1, 255]);
    assert_eq!(flat(&op_img_paste(&base, &top, i64::MAX, i64::MIN)), flat(&base));
}

#[test]
fn borders_and_montages() {
    let img = solid(1, 1, px(9, 9, 9, 255));
    let b = op_img_border(&img, 1, px(1, 1, 1, 255));
    assert_eq!((b.width, first(&b)), (3, vec![1, 1, 1, 1, 9, 1, 1, 1, 1]));
    let wide = solid(2, 1, px(7, 7, 7, 255));
    let m = op_img_montage(&vec![img, wide], 1, 1, px(0, 0, 0, 255));
    assert_eq!((m.width, m.rows.len()), (4, 5));
    assert_eq!(m.rows[1][1].r, 9);
    assert_eq!(m.rows[3][2].r, 7);
}

#[test]
fn shadows_follow_the_shape() {
    assert_eq!(pad_for_shadow(4, 6, -9), 21);
    assert_eq!(pad_for_shadow(0, 0, 0), 1);
    let img = Image { width: 1, rows: vec![vec![px(5, 5, 5, 200)]] };
    let table: Vec<u8> = (0..256u32).map(|a| (a / 2) as u8).collect();
    let s = op_img_drop_shadow(&img, 2, 1, 0, px(1, 2, 3, 255), &table);
    assert_eq!((s.width, s.rows.len()), (5, 5));
    assert_eq!(flat(&s)[2 * 5 + 3], [1, 2, 3, 100]);
    assert_eq!(flat(&s)[0], [0, 0, 0, 0]);
}

#[test]
fn speckles_are_filtered() {
    let img = gray(&[&[5, 5, 5], &[5, 90, 5], &[5, 5, 5]]);
    assert_eq!(first(&op_img_median(&img, 1)), vec![5; 9]);
}

#[test]
fn options_of_images() {
    assert!(filter_of(&val(r#"{"filter":"bicubic"}"#)) == Sampling::CatmullRom);
    assert!(filter_of(&val("{}")) == Sampling::Lanczos3);
    assert!(op_img_rotate(&val("{}")) == Turn::Quarter);
    assert!(op_img_rotate(&val(r#"{"degrees":-90}"#)) == Turn::ThreeQuarters);
    assert!(op_img_rotate(&val(r#"{"degrees":540}"#)) == Turn::Half);
    assert!(op_img_rotate(&val(r#"{"degrees":725}"#)) == Turn::Degrees(5));
    assert!(op_img_rotate(&val(r#"{"degrees":-9223372036854775808}"#)) == Turn::Degrees(352));
    assert!(op_img_flip(&val(r#"{"dir":"vertical"}"#)) && !op_img_flip(&val("{}")));
    assert!(op_img_convert(&val(r#"{"mode":"gray"}"#)) == Channels::Gray);
    assert!(op_img_convert(&val(r#"{"mode":"la"}"#)) == Channels::GrayAlpha);
    assert!(op_img_convert(&val("{}")) == Channels::Rgba);
    assert_eq!(
        js(&info_json(4, 5, 6, Channels::Rgb)),
        want(r#"{"handle":4,"width":5,"height":6,"mode":"RGB"}"#)
    );
    let (name, e) = read_encoding(&val(r#"{"format":"JPG"}"#));
    assert!(name == "jpg" && e == Encoding::Jpeg);
    assert_eq!(read_bounded(&val(r#"{"n":99}"#), "n", 5, 1, 64), 64);
    assert_eq!(read_bounded(&val("{}"), "n", 5, 1, 64), 5);
}

#[test]
fn animations_and_lists() {
    let opts = val(r#"{"handles":[3,"x",4],"delays":[7],"repeat":2}"#);
    assert_eq!(read_handles(&opts, "none").unwrap(), vec![3, 4]);
    assert_eq!(read_handles(&val(r#"{"handles":[]}"#), "none").err().unwrap(), "none");
    assert_eq!(
        read_handles(&val("{}"), "none").err().unwrap(),
        "missing handles (expected array)"
    );
    assert_eq!(op_img_save_animated(&opts, 2), (vec![7, 100], Some(2)));
    assert_eq!(op_img_save_animated(&val("{}"), 1), (vec![100], None));
}

#[test]
fn points_of_polygons() {
    let p = op_img_draw_polygon(&val(r#"{"points":[[0,0],[4,0],["x",1],[4,4],[0,0]]}"#)).unwrap();
    assert_eq!(p, vec![(0, 0), (4, 0), (4, 4)]);
    assert_eq!(
        op_img_draw_polygon(&val(r#"{"points":[[0,0]]}"#)).err().unwrap(),
        "polygon needs at least 3 points"
    );
    assert_eq!(
        op_img_draw_polygon(&val("{}")).err().unwrap(),
        "missing points (expected [[x,y],...])"
    );
    let nine = read_nine(&val(r#"{"kernel":[1,2,3,4,5,"x",7,8,9,10]}"#), "kernel").ok().unwrap();
    assert!(nine.len() == 9 && nine[5].is_none() && nine[8].is_some());
    assert_eq!(read_nine(&val("{}"), "kernel").err().unwrap(), "missing kernel (expected 9 numbers)");
    assert_eq!(
        read_nine(&val(r#"{"matrix":[1]}"#), "matrix").err().unwrap(),
        "matrix must have 9 numbers"
    );
    assert_eq!(
        op_img_draw_text_multiline("a\nb", 10, 20),
        vec![("a".to_string(), 10), ("b".to_string(), 30)]
    );
}

#[test]
fn watermarks_are_staggered() {
    let w = op_img_watermark(100, 45, 80);
    assert_eq!(w, vec![(0, 0), (80, 0), (-40, 40), (40, 40)]);
}

#[test]
fn noise_repeats_for_a_seed() {
    let mut g = Lcg::new(1);
    let n = g.next_draw();
    let s = 1u64.wrapping_add(0x9E37_79B9_7F4A_7C15);
    let t = s.wrapping_mul(6364136223846793005).wrapping_add(1442695040888963407);
    assert_eq!(n, t >> 11);
    let img = gray(&[&[7; 16], &[7; 16]]);
    assert_eq!(first(&op_img_noise(&img, 1, 0)), first(&img));
    let all = op_img_noise(&img, 1, 1 << 53);
    assert!(first(&all).iter().all(|&v| v == 0 || v == 255));
    assert_eq!(first(&all), first(&op_img_noise(&img, 1, 1 << 53)));
}

#[test]
fn qr_codes_are_drawn() {
    let (img, modules) =
        op_barcode_qr("hello", Level::M, 2, 1, px(0, 0, 0, 255), px(255, 255, 255, 255))
            .unwrap()
            .unwrap();
    assert_eq!(modules, 21);
    assert_eq!((img.width, img.rows.len()), (46, 46));
    assert_eq!(img.rows[0][0].r, 255);
    assert_eq!(img.rows[2][2].r, 0);
    assert_eq!(img.rows[4][4].r, 255);
    let long = "x".repeat(4000);
    assert!(op_barcode_qr(&long, Level::H, 1, 0, px(0, 0, 0, 255), px(9, 9, 9, 255)).is_err());
    assert!(read_level(&val(r#"{"ec":"h"}"#)) == Level::H);
    assert_eq!(read_quiet(&val(r#"{"border":2}"#)), 2);
    assert_eq!(read_scale(&val(r#"{"scale":0}"#), "scale", 6), 1);
}

#[test]
fn bars_are_encoded() {
    assert_eq!(
        encode_1d("ean8", "5512345", 'x').unwrap().len(),
        67
    );
    assert_eq!(encode_1d("ean13", "750103131130", 'x').unwrap().len(), 95);
    assert_eq!(encode_1d("upca", "12345678901", 'x').unwrap().len(), 95);
    assert!(encode_1d("code39", "ABC", 'x').unwrap().len() > 20);
    assert!(encode_1d("code93", "ABC", 'x').is_ok());
    assert!(encode_1d("code11", "123", 'x').is_ok());
    assert!(encode_1d("codabar", "A123A", 'x').is_ok());
    assert!(encode_1d("itf", "1234", 'x').is_ok());
    assert!(encode_1d("2of5", "1234", 'x').is_ok());
    assert!(encodable("code128", "Hi", '\u{181}'));
    let b = encode_1d("code128", "Hi", '\u{181}').unwrap();
    assert!(b.iter().all(|&x| x <= 1) && b[0] == 1);
    assert_ne!(b, encode_1d("code128", "Ho", '\u{181}').unwrap());
    assert_eq!(encode_1d("zzz", "1", 'x').err().unwrap(), "unknown symbology: zzz");
    assert!(encode_1d("ean13", "no digits", 'x').err().unwrap().starts_with("barcode: "));
}

#[test]
fn bars_are_drawn() {
    let st = read_bar_style(&val(r#"{"scale":1,"height":2}"#));
    assert_eq!((st.scale, st.height, st.quiet), (1, 2, 10));
    let (img, n) = draw_bars(&vec![1, 0, 1], &st).unwrap().unwrap();
    assert_eq!((n, img.width, img.rows.len()), (3, 23, 2));
    assert_eq!((img.rows[1][10].r, img.rows[1][11].r, img.rows[1][12].r), (0, 255, 0));
    assert_eq!(draw_bars(&vec![], &st).err().unwrap(), "barcode: empty encoding");
    let set = read_set(&val(r#"{"set":"c"}"#));
    assert_eq!(set, '\u{106}');
    assert_eq!(read_symbology(&val(r#"{"type":"EAN8"}"#)), "ean8");
    let (img, bars) = op_barcode_1d("ean8", "5512345", set, &st).unwrap().unwrap();
    assert_eq!((bars, img.width), (67, 87));
}

#[test]
fn lightness_picks_a_color() {
    let mut table = vec![px(0, 0, 0, 255); 256];
    table[255] = px(9, 8, 7, 0);
    let img = gray(&[&[0, 255]]);
    assert_eq!(flat(&apply_gradient(&img, &table)), [[0, 0, 0, 255], [9, 8, 7, 255]]);
}

#[test]
fn options_have_defaults() {
    let o = val(r#"{"n": 7, "m": -7, "s": "7"}"#);
    assert_eq!(opt_i64(&o, "m", 1), -7);
    assert_eq!(opt_i64(&o, "s", 1), 1);
    assert_eq!(opt_u32(&o, "n", 1), 7);
    assert_eq!(opt_u32(&o, "m", 1), 1);
    assert_eq!(req_u64_img(&o, "n"), Ok(7));
    assert_eq!(req_u64_img(&o, "k"), Err("missing k".to_string()));
}

#[test]
fn pixels_are_moved_as_they_are() {
    let rows = vec![vec![1, 2, 3], vec![4, 5, 6]];
    assert_eq!(place(&rows, 3, Placement::Quarter), [[4, 1], [5, 2], [6, 3]]);
    assert_eq!(place(&rows, 3, Placement::Half), [[6, 5, 4], [3, 2, 1]]);
    assert_eq!(place(&rows, 3, Placement::ThreeQuarters), [[3, 6], [2, 5], [1, 4]]);
    assert_eq!(place(&rows, 3, Placement::Mirror), [[3, 2, 1], [6, 5, 4]]);
    assert_eq!(place(&rows, 3, Placement::Overturn), [[4, 5, 6], [1, 2, 3]]);
    let crop = Placement::Crop { x: 1, y: 1, width: 9, height: 9 };
    assert_eq!(place(&rows, 3, crop), [[5, 6]]);
    assert_eq!(new_size(crop, 3, 2), (2, 1));
    assert_eq!(new_size(Placement::Crop { x: 7, y: 0, width: 1, height: 1 }, 3, 2), (0, 1));
    let turned = place(&rows, 3, Placement::Quarter);
    assert_eq!(place(&turned, 2, Placement::ThreeQuarters), rows);
    assert_eq!(place(&turned, 2, Placement::Quarter), place(&rows, 3, Placement::Half));
    let whole = Placement::Crop { x: 0, y: 0, width: 3, height: 5 };
    assert_eq!(place(&rows, 3, whole), rows);
}

#[test]
fn crops_are_read() {
    let asked = val(r#"{"x": 1, "y": 2, "width": 3, "height": 4294967300}"#);
    let want = Placement::Crop { x: 1, y: 2, width: 3, height: 4 };
    assert!(op_img_crop(&asked) == Ok(want));
    assert_eq!(op_img_crop(&val(r#"{"x": 1}"#)).err().unwrap(), "missing y");
}

#[test]
fn rectangles_are_drawn() {
    let img = gray(&[&[0, 0, 0], &[0, 0, 0], &[0, 0, 0]]);
    let pen = px(9, 9, 9, 9);
    let full = op_img_draw_rect(&img, 1, -1, 5, 3, pen, true);
    assert_eq!(first(&full), [0, 9, 9, 0, 9, 9, 0, 0, 0]);
    let thin = op_img_draw_rect(&img, 2, 2, 0, 0, pen, true);
    assert_eq!(first(&thin), [0, 0, 0, 0, 0, 0, 0, 0, 9]);
    let outline = op_img_draw_rect(&img, 0, 0, 3, 3, pen, false);
    assert_eq!(first(&outline), [9, 9, 9, 9, 0, 9, 9, 9, 9]);
    let far = op_img_draw_rect(&img, i32::MIN, 2, u32::MAX, 9, pen, true);
    assert_eq!(first(&far), [0, 0, 0, 0, 0, 0, 9, 9, 9]);
    let gone = op_img_draw_rect(&img, i32::MAX, 2, u32::MAX, 9, pen, false);
    assert_eq!(first(&gone), [0; 9]);
    assert!(!is_drawable_rect(&img, 0, 0, u32::MAX, 1, false));
    assert_eq!(flat(&outline)[4], [0, 0, 0, 255]);
}

#[test]
fn circles_and_ellipses_are_drawn() {
    let img = gray(&[&[0, 0, 0], &[0, 0, 0], &[0, 0, 0]]);
    let pen = px(9, 9, 9, 9);
    assert_eq!(first(&op_img_draw_circle(&img, 1, 1, 0, pen, true)), [0, 0, 0, 0, 9, 0, 0, 0, 0]);
    assert_eq!(first(&op_img_draw_circle(&img, 1, 1, 1, pen, false)), [0, 9, 0, 9, 0, 9, 0, 9, 0]);
    assert_eq!(first(&op_img_draw_circle(&img, 1, 1, -1, pen, true)), [0; 9]);
    assert_eq!(
        first(&op_img_draw_ellipse(&img, 1, 1, 1, 1, pen, false)),
        first(&op_img_draw_circle(&img, 1, 1, 1, pen, false))
    );
    let dot = op_img_draw_ellipse(&img, 1, 1, 1, 0, pen, true);
    assert_eq!(first(&dot), [0, 0, 0, 0, 9, 0, 0, 0, 0]);
    let high = op_img_draw_ellipse(&img, 1, 1, 0, 1, pen, false);
    assert_eq!(first(&high), [0, 9, 0, 0, 9, 0, 0, 9, 0]);
    assert!(is_drawable(-5) && !is_drawable(i32::MAX));
    assert!(is_drawable_ellipse(&img, 1, 1, 46340, 1));
    assert!(!is_drawable_ellipse(&img, 1, 1, 46341, 1));
    assert!(is_drawable_circle(&img, i32::MAX, 0, 5) && !is_drawable_circle(&img, 0, 0, i32::MAX));
    assert_eq!(first(&op_img_draw_circle(&img, i32::MAX, 0, 5, pen, true)), [0; 9]);
    assert_eq!(first(&op_img_draw_ellipse(&img, 0, i32::MIN, 5, 6, pen, true)), [0; 9]);
    for fill in [true, false] {
        let tall = op_img_draw_ellipse(&img, 1, 0, 1, 2, pen, fill);
        assert_eq!(flat(&tall)[7], [9, 9, 9, 9]);
    }
}

#[test]
fn polygons_are_filled() {
    let img = gray(&[&[0, 0, 0, 0], &[0, 0, 0, 0], &[0, 0, 0, 0]]);
    let corners = vec![(0, 0), (2, 0), (2, 2), (0, 2)];
    assert!(is_drawable_polygon(&img, &corners));
    assert!(is_drawable_polygon(&img, &vec![(0, i32::MAX)]));
    assert!(!is_drawable_polygon(&img, &vec![(0, 0), (0, i32::MAX), (9, 0)]));
    let far = draw_polygon(&img, &vec![(0, -9), (i32::MAX, -9), (0, -8)], px(7, 7, 7, 255));
    assert_eq!(flat(&far), flat(&img));
    let filled = draw_polygon(&img, &corners, px(7, 7, 7, 255));
    assert_eq!(first(&filled), [7, 7, 7, 0, 7, 7, 7, 0, 7, 7, 7, 0]);
    assert_eq!(flat(&draw_polygon(&img, &Vec::new(), px(7, 7, 7, 255))), flat(&img));
}

#[test]
fn pictures_are_read_from_letters() {
    let mut png = std::io::Cursor::new(Vec::new());
    let img = image::RgbImage::from_raw(2, 1, vec![1, 2, 3, 4, 5, 6]).unwrap();
    img.write_to(&mut png, image::ImageFormat::Png).unwrap();
    let loaded = op_img_from_base64(&base64_encode(png.get_ref())).unwrap();
    assert_eq!(loaded, (2, 1, 3, 3, vec![1, 2, 3, 4, 5, 6]));
    assert_eq!(read_picture(png.get_ref()), Some(loaded));
    let mut deep = std::io::Cursor::new(Vec::new());
    let img: image::ImageBuffer<image::Luma<u16>, Vec<u16>> =
        image::ImageBuffer::from_raw(1, 1, vec![258]).unwrap();
    img.write_to(&mut deep, image::ImageFormat::Png).unwrap();
    assert_eq!(read_picture(deep.get_ref()), Some((1, 1, 1, 2, vec![2, 1])));
    assert_eq!(op_img_from_base64("T*==").err().unwrap(), "invalid base64 character");
    assert!(op_img_from_base64("TWFu").err().unwrap().starts_with("decode base64 image: "));
    assert_eq!(answer_picture(Err("no".to_string())), Err("decode base64 image: no".to_string()));
    assert_eq!(read_picture(b"no picture"), None);
}

#[test]
fn check_digits_must_fit() {
    let b = '\u{181}';
    let c = '\u{106}';
    assert!(encodable("itf", "9999999999999", b));
    assert!(!encodable("itf", "999999999999999", b));
    assert!(encodable("itf", "111111111111111", b));
    assert!(encodable("itf", "9999999999999999", b));
    assert!(encodable("itf", "99999999999999x", b));
    assert!(encode_1d("itf", "111111111111111", b).is_ok());
    assert!(encodable("code128", &" ".repeat(9000), b));
    assert!(encode_1d("code128", &" ".repeat(9000), b).is_ok());
    assert!(encodable("code128", &"~".repeat(6759), b));
    assert!(encode_1d("code128", &"~".repeat(6759), b).is_ok());
    assert!(!encodable("code128", &"~".repeat(6760), b));
    assert!(encodable("code128", &"\u{7f}".repeat(9000), b));
    assert!(encodable("code128", &"99".repeat(6586), c));
    assert!(encode_1d("code128", &"99".repeat(6586), c).is_ok());
    assert!(!encodable("code128", &"99".repeat(6587), c));
    assert!(encodable("code128", &"9".repeat(13175), c));
    assert!(encode_1d("code128", &"9".repeat(13175), c).is_err());
}

#[test]
fn blocks_are_counted() {
    assert_eq!(pixelated_size(100, 7, 8), (12, 1));
    assert_eq!(pixelated_size(16, 17, 2), (8, 8));
}

fn gif(colors: &[[u8; 4]], ms: u32) -> Vec<u8> {
    let mut out = Vec::new();
    let mut enc = image::codecs::gif::GifEncoder::new(&mut out);
    for c in colors {
        let img = image::RgbaImage::from_pixel(2, 1, image::Rgba(*c));
        let delay = image::Delay::from_numer_denom_ms(ms, 1);
        enc.encode_frame(image::Frame::from_parts(img, 0, 0, delay)).unwrap();
    }
    drop(enc);
    out
}

fn still(format: image::ImageFormat) -> Vec<u8> {
    let mut out = std::io::Cursor::new(Vec::new());
    let img = image::RgbaImage::from_pixel(2, 1, image::Rgba([9, 8, 7, 255]));
    img.write_to(&mut out, format).unwrap();
    out.into_inner()
}

fn chunk(name: &str, data: &[u8]) -> Vec<u8> {
    let mut out = name.as_bytes().to_vec();
    out.extend((data.len() as u32).to_le_bytes());
    out.extend(data);
    if data.len() % 2 == 1 {
        out.push(0);
    }
    out
}

fn webp(flags: u8, chunks: &[Vec<u8>]) -> Vec<u8> {
    let mut body = b"WEBP".to_vec();
    body.extend(chunk("VP8X", &[flags, 0, 0, 0, 1, 0, 0, 0, 0, 0]));
    for c in chunks {
        body.extend(c);
    }
    chunk("RIFF", &body)
}

fn webp_frame(ms: u8, data: &[u8]) -> Vec<u8> {
    let mut frame = vec![0, 0, 0, 0, 0, 0, 1, 0, 0, 0, 0, 0, ms, 0, 0, 2];
    frame.extend(data);
    chunk("ANMF", &frame)
}

#[test]
fn frames_of_a_gif_are_opened() {
    let bytes = gif(&[[255, 0, 0, 255], [0, 0, 255, 255]], 50);
    let shots = op_img_open_frames(&bytes, "d/a.GIF").unwrap();
    assert_eq!(shots.len(), 2);
    assert_eq!(shots[0], ((2, 1, 4, 4, vec![255, 0, 0, 255, 255, 0, 0, 255]), Some((50, 1))));
    assert_eq!(shots[1].0 .4, vec![0, 0, 255, 255, 0, 0, 255, 255]);
    assert!(op_img_open_frames(b"no gif", "a.gif").err().unwrap().starts_with("gif decode: "));
    let cut = &bytes[..bytes.len() - 6];
    assert!(op_img_open_frames(cut, "a.gif").err().unwrap().starts_with("gif frames: "));
}

#[test]
fn still_pictures_are_one_frame() {
    let want = ((2, 1, 4, 4, vec![9, 8, 7, 255, 9, 8, 7, 255]), None);
    for (format, path) in [(image::ImageFormat::Png, "a.png"), (image::ImageFormat::WebP, "a.webp")] {
        let shots = op_img_open_frames(&still(format), path).unwrap();
        assert_eq!(shots, vec![want.clone()]);
    }
    assert!(op_img_open_frames(b"no", "a.png").err().unwrap().starts_with("decode a.png: "));
    assert!(op_img_open_frames(b"no", "a.webp").err().unwrap().starts_with("webp decode: "));
    assert_eq!(answer_still("p", Err("no".to_string())).err().unwrap(), "decode p: no");
    assert_eq!(keep_picture(Err("no".to_string())), None);
}

#[test]
fn frames_of_a_webp_are_opened() {
    let data = still(image::ImageFormat::WebP)[12..].to_vec();
    let anim = chunk("ANIM", &[0, 0, 0, 0, 0, 0]);
    let bytes = webp(0x12, &[anim.clone(), webp_frame(40, &data), webp_frame(60, &data)]);
    assert!(is_safe_picture(&bytes));
    let shots = op_img_open_frames(&bytes, "a.webp").unwrap();
    let img = (2, 1, 4, 4, vec![9, 8, 7, 255, 9, 8, 7, 255]);
    assert_eq!(shots, vec![(img.clone(), Some((40, 1))), (img.clone(), Some((60, 1)))]);
    let broken = webp(0x12, &[anim.clone(), webp_frame(40, &chunk("VP8L", &[0; 24]))]);
    let e = op_img_open_frames(&broken, "a.webp").err().unwrap();
    assert!(e.starts_with("webp frames: "));
    let flat = webp(0x10, &[data.clone(), webp_frame(40, &data)]);
    assert_eq!(op_img_open_frames(&flat, "a.webp").unwrap(), vec![(img, None)]);
}

#[test]
fn frames_must_fit() {
    let anim = chunk("ANIM", &[0, 0, 0, 0, 0, 0]);
    let colors = |w: u8| chunk("VP8 ", &[0, 0, 0, 0x9d, 1, 0x2a, w, 0, 1, 0, 0, 0]);
    let frame = |w: u8| [chunk("ALPH", &[0, 255, 255]), colors(w)].concat();
    let file = |w: u8| webp(0x12, &[anim.clone(), webp_frame(1, &frame(2)), webp_frame(1, &frame(w))]);
    assert!(is_safe_picture(&file(2)));
    assert!(!is_safe_picture(&file(3)));
    let mut wide = file(2);
    wide[24..30].copy_from_slice(&[0xff, 0x7f, 0, 0xff, 0x7f, 0]);
    assert!(!is_safe_picture(&wide));
    wide[20] = 0x10;
    assert!(is_safe_picture(&wide));
    assert!(is_safe_picture(b""));
}

#[test]
fn frames_become_pictures() {
    let f: Vec<Frame> = vec![(1, 1, 3, 2, vec![1, 2, 3, 4])];
    assert_eq!(answer_frames("k", Ok(f)).unwrap(), vec![((1, 1, 4, 4, vec![1, 2, 3, 4]), Some((3, 2)))]);
    let e = |late: bool| answer_frames("k", Err((late, "no".to_string()))).err().unwrap();
    assert_eq!(e(false), "k decode: no");
    assert_eq!(e(true), "k frames: no");
}

#[test]
fn files_are_answered_as_letters() {
    assert_eq!(op_img_to_base64("png", Ok(b"Man".to_vec())).unwrap(), ("TWFu".to_string(), 3));
    assert_eq!(op_img_to_base64("gif", Err("no".to_string())).err().unwrap(), "encode gif: no");
}

#[test]
fn filled_ellipses_cover_their_axis() {
    let pen = px(7, 7, 7, 255);
    let img = op_img_draw_ellipse(&solid(9, 9, px(0, 0, 0, 0)), 4, 4, 2, 3, pen, true);
    for y in 0..9 {
        let inside = (1..=7).contains(&y);
        assert_eq!(op_img_get_pixel(&img, 4, y).unwrap().r, if inside { 7 } else { 0 });
    }
}
