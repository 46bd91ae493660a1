use mandel::escape::mandel;
use mandel::render::{mandelbrot, Pixel};
use mandel::resolve::resolve;
use mandel::sampler::Fraction;
use mandel::shader::{shade, Rgb};

struct Window {
    x0: f32,
    x1: f32,
    y0: f32,
    y1: f32,
}

fn value(f: Fraction) -> f32 {
    f.num as f32 / f.den as f32
}

fn escape(c_real: f32, c_imag: f32, budget: usize) -> usize {
    let escaped = |z: &(f32, f32)| z.0 * z.0 + z.1 * z.1 > 4.0;
    let step = |z: &(f32, f32)| (c_real + (z.0 * z.0 - z.1 * z.1), c_imag + 2.0 * z.0 * z.1);
    mandel((c_real, c_imag), budget, &escaped, &step)
}

struct Scene {
    width: usize,
    height: usize,
    iterations: usize,
    window: Window,
    samples: Vec<(f32, f32, f32)>,
}

/// One sample in the middle of each pixel, with weight 1.
fn scene(width: usize, height: usize, iterations: usize) -> Scene {
    let window = Window { x0: -2.0, x1: 1.0, y0: -1.0, y1: 1.0 };
    Scene { width, height, iterations, window, samples: vec![(0.0, 0.0, 1.0)] }
}

fn add_sample(sum: Rgb<f32>, p: Pixel, k: usize, s: &Scene) -> Rgb<f32> {
    let (offset_x, offset_y, weight) = s.samples[k];
    let x = (p.x as f32 + 0.5 + offset_x) / s.width as f32 * (s.window.x1 - s.window.x0)
        + s.window.x0;
    let y = (p.y as f32 + 0.5 + offset_y) / s.height as f32 * (s.window.y1 - s.window.y0)
        + s.window.y0;
    let c = shade(escape(x, y, s.iterations), s.iterations);
    Rgb {
        r: sum.r + value(c.r) * weight,
        g: sum.g + value(c.g) * weight,
        b: sum.b + value(c.b) * weight,
    }
}

fn image(s: &Scene) -> Vec<Rgb<f32>> {
    let weight_sum: f32 = s.samples.iter().map(|sample| sample.2).sum();
    let black = Rgb { r: 0.0f32, g: 0.0, b: 0.0 };
    let pixel = |p: Pixel| {
        resolve(
            s.samples.len(),
            black,
            &|sum, k| add_sample(sum, p, k, s),
            &|sum: Rgb<f32>| Rgb { r: sum.r / weight_sum, g: sum.g / weight_sum, b: sum.b / weight_sum },
        )
    };
    let mut buf = vec![black; s.width * s.height];
    let _ = mandelbrot(s.width, s.height, &pixel, &mut buf);
    buf
}

fn quantize(v: &f32) -> u8 {
    (v.clamp(0.0, 1.0).powf(1.0 / 2.2) * 255.0) as u8
}

fn render(width: usize, height: usize, iterations: usize) -> Vec<u8> {
    let s = scene(width, height, iterations);
    mandel::ppm::write(width, height, &image(&s), &quantize)
}

#[test]
fn four_by_four_image_has_a_header_and_four_rows_of_four_triples() {
    let out = String::from_utf8(render(4, 4, 10)).unwrap();
    let lines: Vec<&str> = out.lines().collect();
    assert_eq!(lines.len(), 5);
    assert_eq!(lines[0], "P3 4 4 255");
    assert_eq!(out.matches("P3").count(), 1);
    for line in &lines[1..] {
        let numbers: Vec<u32> = line.split(' ').filter(|n| !n.is_empty()).map(|n| n.parse().unwrap()).collect();
        assert_eq!(numbers.len(), 12);
        for triple in numbers.chunks(3) {
            assert!(triple.iter().all(|&n| n <= 255));
            assert!(triple[0] == triple[1] && triple[1] == triple[2]);
        }
    }
}

#[test]
fn four_by_four_image_shades_the_escape_times() {
    let buf = image(&scene(4, 4, 10));
    let tenths: Vec<u32> = buf.iter().map(|c| (c.r * 10.0).round() as u32).collect();
    // Escape times 2 3 9 2 / 3 9 9 3 / 3 9 9 3 / 2 3 9 2, and 9 = budget - 1 is black.
    assert_eq!(tenths, vec![2, 3, 0, 2, 3, 0, 0, 3, 3, 0, 0, 3, 2, 3, 0, 2]);
    assert_eq!(
        String::from_utf8(render(4, 4, 10)).unwrap(),
        "P3 4 4 255\n\
         122 122 122 147 147 147 0 0 0 122 122 122 \n\
         147 147 147 0 0 0 0 0 0 147 147 147 \n\
         147 147 147 0 0 0 0 0 0 147 147 147 \n\
         122 122 122 147 147 147 0 0 0 122 122 122 \n"
    );
}

#[test]
fn two_equal_samples_average_to_the_one_sample_image() {
    let one = scene(6, 4, 16);
    let mut two = scene(6, 4, 16);
    two.samples = vec![(0.0, 0.0, 0.5), (0.0, 0.0, 0.5)];
    assert_eq!(image(&one), image(&two));
}

#[test]
fn rendering_twice_gives_the_same_bytes() {
    assert_eq!(render(19, 11, 32), render(19, 11, 32));
}

#[test]
fn image_is_mirrored_about_the_real_axis() {
    let (width, height) = (12usize, 8usize);
    let out = String::from_utf8(render(width, height, 24)).unwrap();
    let rows: Vec<&str> = out.lines().skip(1).collect();
    for y in 0..height {
        assert_eq!(rows[y], rows[height - 1 - y]);
    }
}
