use projekto::voxel::{self, FacesOcclusion, Kind, Light, LightTy, Side};

#[test]
fn voxel_faces_occlusion() {
    let mut occlusion = FacesOcclusion::default();
    assert!(!occlusion.is_fully_occluded());

    for side in voxel::SIDES {
        assert!(!occlusion.is_occluded(side));
    }

    occlusion.set(Side::Up, true);
    assert!(occlusion.is_occluded(Side::Up));

    occlusion.set(Side::Back, true);
    assert!(occlusion.is_occluded(Side::Back));

    for side in voxel::SIDES {
        occlusion.set(side, true);
    }

    assert!(occlusion.is_fully_occluded());

    for side in voxel::SIDES {
        assert!(occlusion.is_occluded(side));
    }

    occlusion.set(Side::Back, false);
    assert!(!occlusion.is_occluded(Side::Back));

    for side in voxel::SIDES {
        occlusion.set(side, false);
    }

    assert!(!occlusion.is_fully_occluded());

    for side in voxel::SIDES {
        assert!(!occlusion.is_occluded(side));
    }
}

#[test]
fn faces_occlusion_from_sides() {
    let occlusion = FacesOcclusion::from_sides([true, false, true, false, false, true]);
    assert_eq!(occlusion, FacesOcclusion(0b100101));
    assert!(occlusion.is_occluded(Side::Right));
    assert!(!occlusion.is_occluded(Side::Left));
    assert!(occlusion.is_occluded(Side::Back));
    let mut all = FacesOcclusion::default();
    all.set_all(true);
    assert!(all.is_fully_occluded());
    all.set_all(false);
    assert_eq!(all, FacesOcclusion(0));
}

#[test]
fn kind_properties() {
    assert!(Kind::none().is_empty());
    assert!(!Kind::none().is_opaque());
    assert!(Kind::id(1).is_opaque());
    assert!(!Kind::id(voxel::LIGHT_EMITTER_KIND).is_opaque());
    assert!(Kind::id(voxel::LIGHT_EMITTER_KIND).is_light_emitter());
    assert_eq!(Kind::from(7).value(), 7);
    assert_eq!(Kind::default(), Kind::none());
}

#[test]
fn light_intensities() {
    let mut light = Light::natural(voxel::MAX_NATURAL_INTENSITY);
    assert_eq!(light.get(LightTy::Natural), 15);
    assert_eq!(light.get(LightTy::Artificial), 0);
    light.set(LightTy::Artificial, 20);
    assert_eq!(light.get_greater_intensity(), 20);
    light.set(LightTy::Natural, 3);
    assert_eq!(light.get(LightTy::Natural), 3);
    assert_eq!(light.get(LightTy::Artificial), 20);
    assert_eq!(Light::default(), Light { natural: 0, artificial: 0 });
}

#[test]
fn side_directions() {
    for (i, side) in voxel::SIDES.iter().enumerate() {
        assert_eq!(side.index(), i);
        assert_eq!(Side::from_index(i), *side);
    }
    assert_eq!(Side::Right.dir(), (1, 0, 0).into());
    assert_eq!(Side::Down.dir(), (0, -1, 0).into());
    assert_eq!(Side::Back.dir(), (0, 0, -1).into());
}

#[test]
fn kind_with_height_source() {
    assert_eq!(Kind::get_kind_with_height_source(10, 10), Kind::id(2));
    assert_eq!(Kind::get_kind_with_height_source(10, 3), Kind::id(1));
    assert_eq!(Kind::get_kind_with_height_source(10, 11), Kind::id(3));
}
