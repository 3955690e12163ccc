use tiny_renderer::geometry::Array;
use tiny_renderer::model::Model;
use tiny_renderer::tga_image::TgaColor;
use tiny_renderer::tga_image::TgaImage;

fn sample() -> Model<f32> {
    let verts = vec![
        Array::from(vec![0.0f32, 0.0, 0.0]),
        Array::from(vec![1.0f32, 0.0, 0.0]),
        Array::from(vec![0.0f32, 1.0, 0.0]),
        Array::from(vec![0.0f32, 0.0, 1.0]),
    ];
    let tex = vec![Array::from(vec![0.25f32, 0.5]), Array::from(vec![0.75f32, 1.0])];
    let norms = vec![Array::from(vec![0.0f32, 0.0, 1.0]), Array::from(vec![1.0f32, 0.0, 0.0])];
    let mut diffuse = TgaImage::new(2, 2, TgaImage::RGB);
    diffuse.set(1, 0, &TgaColor::new(9, 8, 7, 6));
    Model::from_parts(
        verts,
        tex,
        norms,
        vec![0, 1, 2, 3, 2, 1, 0],
        vec![0, 1, 1, 1, 0, 0],
        vec![1, 0, 0, 0, 1, 1],
        diffuse,
        TgaImage::default(),
        TgaImage::default(),
    )
}

#[test]
fn counts() {
    let m = sample();
    assert_eq!(m.nverts(), 4);
    assert_eq!(m.nfaces(), 2);
    let empty: Model<f32> = Model::default();
    assert_eq!(empty.nfaces(), 0);
    assert_eq!(empty.nverts(), 0);
}

#[test]
fn face_corners() {
    let m = sample();
    let f = m.get_vert(1);
    assert_eq!((f[0].get(0), f[0].get(1), f[0].get(2)), (0.0, 0.0, 1.0));
    assert_eq!((f[1].get(0), f[1].get(1)), (0.0, 1.0));
    assert_eq!(f[2].get(0), 1.0);
    let uv = m.uv(0, 1);
    assert_eq!((uv.get(0), uv.get(1)), (0.75, 1.0));
    let n = m.get_norm(1, 1);
    assert_eq!(n.get(0), 1.0);
}

#[test]
fn diffuse_lookup() {
    let m = sample();
    let c = m.get_diffuse(1, 0);
    assert_eq!((c.get(0), c.get(1), c.get(2), c.get(3)), (7, 8, 9, 255));
    assert_eq!(m.diffusemap().get_width(), 2);
    assert_eq!(m.normalmap().get_width(), 0);
}
