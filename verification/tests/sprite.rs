use stream_observer::json::{parse, Json};
use stream_observer::sprite::{paint, Anim, Area, Blot, Paint, Sprite, SpriteError};

#[test]
fn parses_palette_transparency_and_pairing() {
    let json = r#"{
        "palette": {".": null, "R": [255, 0, 0], "G": [0, 128, 0]},
        "rows": [".R", "G."]
    }"#;
    let s = Sprite::from_json(json).unwrap();
    assert_eq!((s.w, s.h), (2, 2));
    assert_eq!(s.get(0, 0), None);
    assert_eq!(s.get(1, 0), Some((255, 0, 0)));
    assert_eq!(s.get(0, 1), Some((0, 128, 0)));
    assert_eq!(s.get(1, 1), None);
}

#[test]
fn rejects_ragged_rows() {
    let json = r#"{"palette": {".": null}, "rows": [".", ".."]}"#;
    assert!(Sprite::from_json(json).is_err());
}

#[test]
fn rejects_undefined_palette_char() {
    let json = r#"{"palette": {".": null}, "rows": ["X"]}"#;
    assert!(Sprite::from_json(json).is_err());
}

fn fails(json: &str) -> SpriteError {
    Sprite::from_json(json).err().unwrap()
}

#[test]
fn each_fault_has_its_own_error() {
    assert_eq!(fails("not json"), SpriteError::NotJson);
    assert_eq!(fails(r#"{"rows": ["."]}"#), SpriteError::NoPalette);
    assert_eq!(fails(r#"{"palette": [], "rows": ["."]}"#), SpriteError::NoPalette);
    assert_eq!(fails(r#"{"palette": {"": null}, "rows": ["."]}"#), SpriteError::EmptyKey);
    assert_eq!(fails(r#"{"palette": {"ab": null}, "rows": ["."]}"#), SpriteError::LongKey);
    assert_eq!(fails(r#"{"palette": {"a": 7}, "rows": ["a"]}"#), SpriteError::NotAColor);
    assert_eq!(fails(r#"{"palette": {"a": [1, 2]}, "rows": ["a"]}"#), SpriteError::ComponentCount);
    assert_eq!(
        fails(r#"{"palette": {"a": [1, 2, "x"]}, "rows": ["a"]}"#),
        SpriteError::NotAnInteger
    );
    assert_eq!(
        fails(r#"{"palette": {"a": [1, 2, 3.5]}, "rows": ["a"]}"#),
        SpriteError::NotAnInteger
    );
    assert_eq!(fails(r#"{"palette": {".": null}}"#), SpriteError::NoRows);
    assert_eq!(fails(r#"{"palette": {".": null}, "rows": []}"#), SpriteError::EmptyRows);
    assert_eq!(
        fails(r#"{"palette": {".": null}, "rows": [".", 1]}"#),
        SpriteError::RowNotText { row: 1 }
    );
    assert_eq!(
        fails(r#"{"palette": {".": null}, "rows": [".", ".."]}"#),
        SpriteError::RowWidth { row: 1, width: 2, expected: 1 }
    );
    assert_eq!(
        fails(r#"{"palette": {".": null}, "rows": [".", "X"]}"#),
        SpriteError::UndefinedChar { row: 1, ch: 'X' }
    );
    assert_eq!(Anim::from_json("{}").err(), Some(SpriteError::NoFrames));
    assert_eq!(Anim::from_json(r#"{"frames": []}"#).err(), Some(SpriteError::EmptyFrames));
    assert_eq!(Anim::from_json("[").err(), Some(SpriteError::NotJson));
}

#[test]
fn components_are_clamped() {
    let s = Sprite::from_json(r#"{"palette": {"a": [300, -5, 128]}, "rows": ["a"]}"#).unwrap();
    assert_eq!(s.get(0, 0), Some((255, 0, 128)));
}

#[test]
fn an_animation_holds_its_frames() {
    let frame = r#"{"palette": {".": null, "F": [255, 120, 0]}, "rows": ["F.", ".F", "FF"]}"#;
    let a = Anim::from_json(&format!(r#"{{"fps": 12, "frames": [{frame}, {frame}]}}"#)).unwrap();
    assert_eq!(f64::from_bits(a.fps.0), 12.0);
    assert_eq!(a.frames.len(), 2);
    for f in &a.frames {
        assert_eq!((f.w, f.h), (2, 3));
        assert_eq!(f.cell_size(), (2, 2));
    }
    let plain = Anim::from_json(&format!(r#"{{"frames": [{frame}]}}"#)).unwrap();
    assert_eq!(f64::from_bits(plain.fps.0), 8.0);
}

#[test]
fn pairs_of_pixels_make_half_blocks() {
    let (r, g) = ((255, 0, 0), (0, 255, 0));
    assert_eq!(paint(None, None), None);
    assert_eq!(paint(Some(r), None), Some(Paint::Upper { top: r }));
    assert_eq!(paint(None, Some(g)), Some(Paint::Lower { bottom: g }));
    assert_eq!(paint(Some(r), Some(g)), Some(Paint::Both { top: r, bottom: g }));
}

#[test]
fn a_sprite_is_clipped_to_its_area() {
    let json = r#"{"palette": {".": null, "R": [9, 0, 0], "G": [0, 9, 0]}, "rows": ["RG", "G.", "RR"]}"#;
    let s = Sprite::from_json(json).unwrap();
    let all = s.render(Area { x: 10, y: 20, width: 5, height: 5 });
    let (r, g) = ((9, 0, 0), (0, 9, 0));
    assert_eq!(
        all,
        [
            Blot { x: 10, y: 20, paint: Paint::Both { top: r, bottom: g } },
            Blot { x: 11, y: 20, paint: Paint::Upper { top: g } },
            Blot { x: 10, y: 21, paint: Paint::Upper { top: r } },
            Blot { x: 11, y: 21, paint: Paint::Upper { top: r } },
        ]
    );
    let clipped = s.render(Area { x: 10, y: 20, width: 1, height: 1 });
    assert_eq!(clipped, all[..1]);
    assert!(s.render(Area { x: 0, y: 0, width: 0, height: 0 }).is_empty());
}

#[test]
fn json_is_read_into_values() {
    let j = parse(r#" {"a": [1, -2, 2.5, true, null], "b": "x"} "#).unwrap();
    let Json::Object(fields) = &j else { panic!("an object") };
    assert_eq!(fields.len(), 2);
    let Some(Json::List(items)) = j.get("a") else { panic!("a list") };
    let Json::Number { whole, bits } = &items[1] else { panic!("a number") };
    assert_eq!(*whole, Some(-2));
    assert_eq!(*bits, Some((-2.0f64).to_bits()));
    let Json::Number { whole, bits } = &items[2] else { panic!("a number") };
    assert_eq!((*whole, *bits), (None, Some(2.5f64.to_bits())));
    assert!(matches!(items[3], Json::Bool(true)));
    assert!(matches!(items[4], Json::Null));
    assert!(matches!(j.get("b"), Some(Json::Text(s)) if s == "x"));
    assert!(j.get("c").is_none());
    assert!(parse("{").is_none());
}
