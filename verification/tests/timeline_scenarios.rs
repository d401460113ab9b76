use swf_timeline::geom::Matrix;
use swf_timeline::timeline::{
    CharacterId, Depth, Frame, PlaceObject, RemoveObject, TimelineBuilder, TimelineError,
};

fn place(depth: u16, character_id: Option<u16>) -> PlaceObject {
    PlaceObject { depth, character_id, matrix: None, name: None, is_move: false }
}

fn sample_matrix() -> Matrix {
    Matrix {
        scale_x: 0x20000,
        scale_y: 0x8000,
        rotate_skew0: 7,
        rotate_skew1: -7,
        translate_x: 40,
        translate_y: -60,
    }
}

#[test]
fn carry_forward_with_override() {
    // Place at depth 3, character 7, no matrix, frame 0; advance; place at
    // depth 3 with only a matrix at frame 1: the character is carried
    // forward, the transform overridden.
    let mut b = TimelineBuilder::new();
    b.place_object(&place(3, Some(7))).unwrap();
    b.advance_frame();
    let m = sample_matrix();
    let mut p = place(3, None);
    p.matrix = Some(m);
    b.place_object(&p).unwrap();
    b.advance_frame();
    let t = b.finish(Frame(2)).unwrap();
    let layer = t.layer(Depth(3)).unwrap();
    let obj = layer.object_at_frame(Frame(1)).unwrap();
    assert_eq!(obj.character, CharacterId(7));
    assert_eq!(obj.matrix, m);
    assert_eq!(obj.name.as_deref(), None);
}

#[test]
fn removal_tombstone_is_permanent_until_replaced() {
    // Place depth 5 / character 1 at frame 0; remove depth 5 at frame 1;
    // advance; the query at frame 2 finds nothing.
    let mut b = TimelineBuilder::new();
    b.place_object(&place(5, Some(1))).unwrap();
    b.advance_frame();
    b.remove_object(&RemoveObject { depth: 5 }).unwrap();
    b.advance_frame();
    let t = b.finish(Frame(2)).unwrap();
    let layer = t.layer(Depth(5)).unwrap();
    assert!(layer.object_at_frame(Frame(0)).is_some());
    assert!(layer.object_at_frame(Frame(1)).is_none());
    assert!(layer.object_at_frame(Frame(2)).is_none());
}

#[test]
fn remove_at_unplaced_depth_is_fatal() {
    let mut b = TimelineBuilder::new();
    b.place_object(&place(1, Some(4))).unwrap();
    let r = b.remove_object(&RemoveObject { depth: 2 });
    assert_eq!(r, Err(TimelineError::RemoveUnplacedDepth { depth: Depth(2), frame: Frame(0) }));
}

#[test]
fn first_placement_needs_character_id() {
    let mut b = TimelineBuilder::new();
    let r = b.place_object(&place(9, None));
    assert_eq!(r, Err(TimelineError::MissingCharacterId { depth: Depth(9), frame: Frame(0) }));
}

#[test]
fn non_move_update_must_keep_character() {
    let mut b = TimelineBuilder::new();
    b.place_object(&place(2, Some(7))).unwrap();
    b.advance_frame();
    let r = b.place_object(&place(2, Some(8)));
    assert_eq!(
        r,
        Err(TimelineError::CharacterMismatch {
            depth: Depth(2),
            frame: Frame(1),
            existing: CharacterId(7),
            requested: CharacterId(8),
        })
    );
    // The failed update leaves the layer as it was.
    let t = b.finish(Frame(1)).unwrap();
    let obj = t.layer(Depth(2)).unwrap().object_at_frame(Frame(1)).unwrap();
    assert_eq!(obj.character, CharacterId(7));
}

#[test]
fn move_resets_transform_and_name() {
    let mut b = TimelineBuilder::new();
    let mut p = place(4, Some(7));
    p.matrix = Some(sample_matrix());
    p.name = Some(String::from("hero"));
    b.place_object(&p).unwrap();
    b.advance_frame();
    let mut mv = place(4, Some(9));
    mv.is_move = true;
    b.place_object(&mv).unwrap();
    b.advance_frame();
    let t = b.finish(Frame(2)).unwrap();
    let layer = t.layer(Depth(4)).unwrap();
    let before = layer.object_at_frame(Frame(0)).unwrap();
    assert_eq!(before.character, CharacterId(7));
    assert_eq!(before.name.as_deref(), Some("hero"));
    let after = layer.object_at_frame(Frame(1)).unwrap();
    assert_eq!(after.character, CharacterId(9));
    assert_eq!(after.matrix, Matrix::identity());
    assert_eq!(after.name.as_deref(), None);
}

#[test]
fn same_frame_placements_merge() {
    // Two placements in one frame edit one entry: the second only adds the
    // matrix, the first's character stays.
    let mut b = TimelineBuilder::new();
    b.place_object(&place(3, Some(7))).unwrap();
    let mut p = place(3, None);
    p.matrix = Some(sample_matrix());
    b.place_object(&p).unwrap();
    b.advance_frame();
    let t = b.finish(Frame(1)).unwrap();
    let layer = t.layer(Depth(3)).unwrap();
    assert_eq!(layer.change_count(), 1);
    assert!(layer.any_changes_in_frame(Frame(0)));
    assert!(!layer.any_changes_in_frame(Frame(1)));
    let obj = layer.object_at_frame(Frame(0)).unwrap();
    assert_eq!(obj.character, CharacterId(7));
    assert_eq!(obj.matrix, sample_matrix());
}

#[test]
fn queries_before_first_entry_are_absent() {
    let mut b = TimelineBuilder::new();
    b.advance_frame();
    b.place_object(&place(6, Some(2))).unwrap();
    b.advance_frame();
    let t = b.finish(Frame(2)).unwrap();
    let layer = t.layer(Depth(6)).unwrap();
    assert!(layer.object_at_frame(Frame(0)).is_none());
    assert!(layer.object_at_frame(Frame(1)).is_some());
    assert!(t.layer(Depth(7)).is_none());
}

#[test]
fn name_carries_forward_and_overrides() {
    let mut b = TimelineBuilder::new();
    let mut p = place(1, Some(3));
    p.name = Some(String::from("a"));
    b.place_object(&p).unwrap();
    b.advance_frame();
    b.place_object(&place(1, None)).unwrap();
    b.advance_frame();
    let mut q = place(1, None);
    q.name = Some(String::from("b"));
    b.place_object(&q).unwrap();
    b.advance_frame();
    let t = b.finish(Frame(3)).unwrap();
    let layer = t.layer(Depth(1)).unwrap();
    assert_eq!(layer.change_count(), 3);
    assert_eq!(layer.object_at_frame(Frame(1)).unwrap().name.as_deref(), Some("a"));
    assert_eq!(layer.object_at_frame(Frame(2)).unwrap().name.as_deref(), Some("b"));
}

#[test]
fn finish_checks_frame_count() {
    let mut b = TimelineBuilder::new();
    b.advance_frame();
    let r = b.finish(Frame(3));
    assert!(matches!(
        r,
        Err(TimelineError::FrameCountMismatch { expected: Frame(3), found: Frame(1) })
    ));
}

#[test]
fn finish_stamps_frame_count() {
    let mut b = TimelineBuilder::new();
    b.advance_frame();
    b.advance_frame();
    assert_eq!(b.current_frame(), Frame(2));
    let t = b.finish(Frame(2)).unwrap();
    assert_eq!(t.frame_count(), Frame(2));
}
