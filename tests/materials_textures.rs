use raytrac::aabb::Coords;
use raytrac::materials::Dielectric;
use raytrac::materials::DiffuseLight;
use raytrac::materials::Lambertian;
use raytrac::materials::Material;
use raytrac::materials::Metal;
use raytrac::scalar::Scalar;
use raytrac::textures::CheckedTexture;
use raytrac::textures::ConstantTexture;
use raytrac::textures::NoiseTexture;
use raytrac::textures::Texture;

fn s(x: f64) -> Scalar {
    Scalar::from_bits(x.to_bits())
}

fn solid(v: f64) -> Texture {
    Texture::ConstantTexture(ConstantTexture::from(s(v), s(v), s(v)))
}

fn color_of(t: &Texture) -> Option<f64> {
    match t {
        Texture::ConstantTexture(c) => Some(f64::from_bits(c.color.x.to_bits())),
        _ => None,
    }
}

#[test]
fn checker_resolves_to_a_side() {
    let t = Texture::CheckedTexture(CheckedTexture::new(solid(0.1), solid(0.9)));
    assert_eq!(color_of(t.resolve(true)), Some(0.1));
    assert_eq!(color_of(t.resolve(false)), Some(0.9));
}

#[test]
fn nested_checkers_resolve_through_every_level() {
    let inner = Texture::CheckedTexture(CheckedTexture::new(solid(0.2), solid(0.3)));
    let t = Texture::CheckedTexture(CheckedTexture::new(inner, solid(0.7)));
    assert_eq!(color_of(t.resolve(true)), Some(0.2));
    assert_eq!(color_of(t.resolve(false)), Some(0.7));
    assert_eq!(color_of(solid(0.4).resolve(true)), Some(0.4));
}

#[test]
fn noise_texture_keeps_its_tables() {
    let g: Vec<Coords> = (0..256).map(|i| Coords::new(s(i as f64), s(0.0), s(0.0))).collect();
    let n = NoiseTexture::new(s(4.0), g.clone());
    assert_eq!(n.scale, s(4.0));
    assert_eq!(n.noise.ranvec, g);
    let t = Texture::NoiseTexture(n);
    assert!(matches!(t.resolve(true), Texture::NoiseTexture(_)));
}

#[test]
fn metal_fuzz_is_at_most_one() {
    let albedo = Coords::new(s(0.7), s(0.6), s(0.5));
    assert_eq!(Metal::new(albedo, s(0.3)).fuzz, s(0.3));
    assert_eq!(Metal::new(albedo, s(0.0)).fuzz, s(0.0));
    assert_eq!(Metal::new(albedo, s(1.0)).fuzz, s(1.0));
    assert_eq!(Metal::new(albedo, s(2.5)).fuzz, s(1.0));
    assert_eq!(Metal::new(albedo, s(f64::NAN)).fuzz, s(1.0));
    assert_eq!(Metal::new(albedo, s(-f64::NAN)).fuzz, s(1.0));
    let m = Metal::from(s(0.7), s(0.6), s(0.5), s(0.25));
    assert_eq!(m.albedo, albedo);
    assert_eq!(m.fuzz, s(0.25));
}

#[test]
fn only_lights_emit_and_only_lights_absorb() {
    let light = Material::DiffuseLight(DiffuseLight::new(solid(4.0)));
    assert_eq!(light.emission().and_then(color_of), Some(4.0));
    assert!(!light.scatters());
    let others = [
        Material::Lambertian(Lambertian::color(s(0.4), s(0.2), s(0.4))),
        Material::Lambertian(Lambertian::new(solid(0.5))),
        Material::Metal(Metal::new(Coords::new(s(0.5), s(0.5), s(0.5)), s(0.0))),
        Material::Dielectric(Dielectric::from(s(1.5))),
    ];
    for m in others.iter() {
        assert!(m.emission().is_none());
        assert!(m.scatters());
    }
}

#[test]
fn constructors_keep_their_colors() {
    let c = Coords::new(s(1.0), s(2.0), s(3.0));
    assert!(matches!(DiffuseLight::from_vec3(c).emit, Texture::ConstantTexture(ref t) if t.color == c));
    assert!(matches!(DiffuseLight::color(s(1.0), s(2.0), s(3.0)).emit, Texture::ConstantTexture(ref t) if t.color == c));
    assert!(matches!(Lambertian::from_vec3(c).albedo, Texture::ConstantTexture(ref t) if t.color == c));
    assert_eq!(Dielectric::from(s(1.5)).refractive_index, s(1.5));
    assert_eq!(ConstantTexture::new(c).color, c);
}
