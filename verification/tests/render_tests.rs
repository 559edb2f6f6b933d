use photometric::render::{
    max_photometric_textures, sampler_texture, texture_view_slots, RenderPhotometricProfiles,
    TextureKey,
};

#[test]
fn textures_are_bound_once() {
    let mut p: RenderPhotometricProfiles<(u32, f32)> = RenderPhotometricProfiles::default();
    let a = TextureKey::Index(7);
    let b = TextureKey::Uuid(7);
    assert_eq!(p.get_or_insert_image(a), 0);
    assert_eq!(p.get_or_insert_image(b), 1);
    assert_eq!(p.get_or_insert_image(a), 0);
    assert_eq!(p.binding_index_to_textures, vec![a, b]);
}

#[test]
fn descriptors_carry_their_texture_index() {
    let mut p: RenderPhotometricProfiles<(u32, f32)> = RenderPhotometricProfiles::default();
    let a = TextureKey::Index(1);
    let b = TextureKey::Index(2);
    assert_eq!(p.insert_raw(a, |t| (t, 10.0)), 0);
    assert_eq!(p.insert_raw(b, |t| (t, 20.0)), 1);
    p.insert(99, a, |t| (t, 30.0));
    assert_eq!(p.descriptors, vec![(0, 10.0), (1, 20.0), (0, 30.0)]);
    assert_eq!(p.entity_to_descriptor_index.get(&99), Some(&2));
    p.clear();
    assert!(p.binding_index_to_textures.is_empty());
    assert!(p.descriptors.is_empty());
    assert!(p.entity_to_descriptor_index.is_empty());
}

#[test]
fn binding_array_sizes() {
    assert_eq!(max_photometric_textures(true), 256);
    assert_eq!(max_photometric_textures(false), 8);
}

#[test]
fn views_are_padded_without_partial_binding() {
    let v = texture_view_slots(&[true, false, true], false);
    assert_eq!(v.len(), 8);
    assert_eq!(&v[..3], &[Some(0), None, Some(2)]);
    assert!(v[3..].iter().all(|s| s.is_none()));
    let many = vec![true; 10];
    assert_eq!(texture_view_slots(&many, false).len(), 10);
}

#[test]
fn views_with_partial_binding() {
    assert_eq!(texture_view_slots(&[], true), vec![None]);
    assert_eq!(texture_view_slots(&[false, true], true), vec![None, Some(1)]);
}

#[test]
fn sampler_comes_from_the_first_uploaded_texture() {
    assert_eq!(sampler_texture(&[false, true, true]), Some(1));
    assert_eq!(sampler_texture(&[false, false]), None);
    assert_eq!(sampler_texture(&[]), None);
}
