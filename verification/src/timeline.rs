use vstd::prelude::*;

use crate::avm1::Code;
use crate::geom::Matrix;

verus! {

/// Stacking-order slot of an object on the display list.
#[derive(Copy, Clone, PartialEq, Eq, Structural, Debug)]
pub struct Depth(pub u16);

/// 0-based sequential position in the animation.
#[derive(Copy, Clone, PartialEq, Eq, Structural, Debug, Default)]
pub struct Frame(pub u16);

/// Opaque reference to a character/asset of the movie's dictionary.
#[derive(Copy, Clone, PartialEq, Eq, Structural, Debug)]
pub struct CharacterId(pub u16);

/// The state of one display-list slot at one point in time.
#[derive(Debug)]
pub struct Object {
    pub character: CharacterId,
    pub matrix: Matrix,
    pub name: Option<String>,
}

/// Mathematical model of an `Object`: the instance name as a character
/// sequence, the rest as plain values.
pub ghost struct ObjectV {
    pub character: u16,
    pub matrix: Matrix,
    pub name: Option<Seq<char>>,
}

impl View for Object {
    type V = ObjectV;

    open spec fn view(&self) -> ObjectV {
        ObjectV {
            character: self.character.0,
            matrix: self.matrix,
            name: match self.name {
                Some(s) => Some(s@),
                None => None,
            },
        }
    }
}

impl Clone for Object {
    fn clone(&self) -> (r: Self)
        ensures
            r@ == self@,
    {
        Object {
            character: self.character,
            matrix: self.matrix,
            name: match &self.name {
                Some(s) => Some(s.clone()),
                None => None,
            },
        }
    }
}

/// A fresh object for `character`: identity transform, no instance name.
pub open spec fn fresh_object(character: u16) -> ObjectV {
    ObjectV { character, matrix: Matrix::spec_identity(), name: None }
}

impl Object {
    pub fn new(character: CharacterId) -> (r: Object)
        ensures
            r@ == fresh_object(character.0),
    {
        Object { character, matrix: Matrix::identity(), name: None }
    }
}

/// Model of a layer's history: entries ordered by frame. `(f, Some(o))` means
/// "at frame f the object changed to state o"; `(f, None)` is a tombstone,
/// "the object was removed at frame f".
pub type LayerEntries = Seq<(u16, Option<ObjectV>)>;

/// Frame keys are strictly increasing: at most one entry per frame.
pub open spec fn entries_sorted(s: LayerEntries) -> bool {
    forall|i: int, j: int| 0 <= i < j < s.len() ==> (#[trigger] s[i]).0 < (#[trigger] s[j]).0
}

/// Every entry lies at or before frame `c`.
pub open spec fn entries_bounded(s: LayerEntries, c: u16) -> bool {
    forall|i: int| 0 <= i < s.len() ==> (#[trigger] s[i]).0 <= c
}

/// The stored entry governing frame `f`: the value of the entry at the
/// greatest frame key at or before `f` (walking from the latest entry down),
/// or `None` if no entry exists at or before `f`.
pub open spec fn stored_at(s: LayerEntries, f: u16) -> Option<Option<ObjectV>>
    decreases s.len(),
{
    if s.len() == 0 {
        None
    } else if s.last().0 <= f {
        Some(s.last().1)
    } else {
        stored_at(s.drop_last(), f)
    }
}

/// The effective object at frame `f`: absent when no entry governs `f` or the
/// governing entry is a tombstone.
pub open spec fn effective_at(s: LayerEntries, f: u16) -> Option<ObjectV> {
    match stored_at(s, f) {
        Some(v) => v,
        None => None,
    }
}

/// The history after an edit at frame `f`: the entry at `f` is replaced if it
/// exists (it can only be the last one, in a history bounded by `f`),
/// otherwise appended.
pub open spec fn set_at(s: LayerEntries, f: u16, v: Option<ObjectV>) -> LayerEntries {
    if s.len() > 0 && s.last().0 == f {
        s.update(s.len() - 1, (f, v))
    } else {
        s.push((f, v))
    }
}

/// Per-depth sparse history of object states and removals across frames.
pub struct Layer {
    frames: Vec<(Frame, Option<Object>)>,
}

pub open spec fn entry_view(e: (Frame, Option<Object>)) -> (u16, Option<ObjectV>) {
    (
        e.0.0,
        match e.1 {
            Some(o) => Some(o@),
            None => None,
        },
    )
}

impl View for Layer {
    type V = LayerEntries;

    closed spec fn view(&self) -> LayerEntries {
        self.frames@.map_values(|e: (Frame, Option<Object>)| entry_view(e))
    }
}

impl Layer {
    /// Whether this layer's history has an entry exactly at `frame`.
    pub fn any_changes_in_frame(&self, frame: Frame) -> (r: bool)
        ensures
            r == exists|i: int| 0 <= i < self@.len() && (#[trigger] self@[i]).0 == frame.0,
    {
        let mut i: usize = 0;
        while i < self.frames.len()
            invariant
                i <= self@.len(),
                self@.len() == self.frames@.len(),
                forall|j: int| 0 <= j < i ==> (#[trigger] self@[j]).0 != frame.0,
            decreases self@.len() - i,
        {
            assert(self@[i as int] == entry_view(self.frames@[i as int]));
            if self.frames[i].0.0 == frame.0 {
                return true;
            }
            i = i + 1;
        }
        false
    }

    /// How many change entries this layer's history holds in all.
    pub fn change_count(&self) -> (r: usize)
        ensures
            r == self@.len(),
    {
        self.frames.len()
    }

    /// The effective object at `frame`: the value of the entry at the
    /// greatest frame key at or before `frame`, or absent if there is none or
    /// it is a tombstone.
    pub fn object_at_frame(&self, frame: Frame) -> (r: Option<&Object>)
        ensures
            match r {
                Some(o) => effective_at(self@, frame.0) == Some(o@),
                None => effective_at(self@, frame.0) is None,
            },
    {
        let mut i: usize = self.frames.len();
        proof {
            assert(self@.len() == self.frames@.len());
            assert(self@.take(i as int) =~= self@);
        }
        while i > 0
            invariant
                i <= self@.len(),
                self@.len() == self.frames@.len(),
                stored_at(self@, frame.0) == stored_at(self@.take(i as int), frame.0),
            decreases i,
        {
            assert(self@[i - 1] == entry_view(self.frames@[i - 1]));
            if self.frames[i - 1].0.0 <= frame.0 {
                proof {
                    let t = self@.take(i as int);
                    assert(t.last() == self@[i - 1]);
                    assert(stored_at(t, frame.0) == Some(t.last().1));
                }
                return self.frames[i - 1].1.as_ref();
            }
            proof {
                let t = self@.take(i as int);
                assert(t.last() == self@[i - 1]);
                assert(t.drop_last() =~= self@.take(i - 1));
            }
            i = i - 1;
        }
        proof {
            assert(self@.take(0) =~= Seq::<(u16, Option<ObjectV>)>::empty());
        }
        None
    }
}

/// First value stored under key `k` in an association list.
pub open spec fn find_by_key<T>(s: Seq<(u16, T)>, k: u16) -> Option<T>
    decreases s.len(),
{
    if s.len() == 0 {
        None
    } else if s[0].0 == k {
        Some(s[0].1)
    } else {
        find_by_key(s.subrange(1, s.len() as int), k)
    }
}

proof fn lemma_find_by_key_at_index<T>(s: Seq<(u16, T)>, k: u16, i: int)
    requires
        0 <= i < s.len(),
        s[i].0 == k,
        forall|j: int| 0 <= j < i ==> (#[trigger] s[j]).0 != k,
    ensures
        find_by_key(s, k) == Some(s[i].1),
    decreases i,
{
    if i > 0 {
        let t = s.subrange(1, s.len() as int);
        lemma_find_by_key_at_index(t, k, i - 1);
    }
}

proof fn lemma_find_by_key_absent<T>(s: Seq<(u16, T)>, k: u16)
    requires
        forall|j: int| 0 <= j < s.len() ==> (#[trigger] s[j]).0 != k,
    ensures
        find_by_key(s, k) is None,
    decreases s.len(),
{
    if s.len() > 0 {
        lemma_find_by_key_absent(s.subrange(1, s.len() as int), k);
    }
}

proof fn lemma_find_by_key_update_one<T>(s: Seq<(u16, T)>, i: int, e: (u16, T), k: u16)
    requires
        0 <= i < s.len(),
        e.0 == s[i].0,
        k != e.0,
    ensures
        find_by_key(s.update(i, e), k) == find_by_key(s, k),
    decreases s.len(),
{
    let u = s.update(i, e);
    if i == 0 {
        assert(u.subrange(1, u.len() as int) =~= s.subrange(1, s.len() as int));
    } else {
        assert(u[0] == s[0]);
        if s[0].0 != k {
            assert(u.subrange(1, u.len() as int) =~= s.subrange(1, s.len() as int).update(
                i - 1,
                e,
            ));
            lemma_find_by_key_update_one(s.subrange(1, s.len() as int), i - 1, e, k);
        }
    }
}

/// Replacing the element at `i` by one with the same key changes only that
/// key's binding, and makes it the found one when `i` was the first match.
proof fn lemma_find_by_key_update<T>(s: Seq<(u16, T)>, i: int, e: (u16, T))
    requires
        0 <= i < s.len(),
        e.0 == s[i].0,
        forall|j: int| 0 <= j < i ==> (#[trigger] s[j]).0 != e.0,
    ensures
        find_by_key(s.update(i, e), e.0) == Some(e.1),
        forall|k: u16| k != e.0 ==> find_by_key(s.update(i, e), k) == find_by_key(s, k),
{
    let u = s.update(i, e);
    assert(forall|j: int| 0 <= j < i ==> (#[trigger] u[j]).0 != e.0);
    lemma_find_by_key_at_index(u, e.0, i);
    assert forall|k: u16| k != e.0 implies find_by_key(u, k) == find_by_key(s, k) by {
        lemma_find_by_key_update_one(s, i, e, k);
    }
}

proof fn lemma_find_by_key_push_one<T>(s: Seq<(u16, T)>, e: (u16, T), k: u16)
    requires
        k != e.0,
    ensures
        find_by_key(s.push(e), k) == find_by_key(s, k),
    decreases s.len(),
{
    let u = s.push(e);
    if s.len() == 0 {
        assert(u[0] == e);
        assert(u.subrange(1, u.len() as int) =~= Seq::<(u16, T)>::empty());
        assert(find_by_key(u, k) == find_by_key(u.subrange(1, u.len() as int), k));
        assert(find_by_key(u.subrange(1, u.len() as int), k) is None);
    } else {
        assert(u[0] == s[0]);
        if s[0].0 != k {
            assert(u.subrange(1, u.len() as int) =~= s.subrange(1, s.len() as int).push(e));
            lemma_find_by_key_push_one(s.subrange(1, s.len() as int), e, k);
            assert(find_by_key(u, k) == find_by_key(u.subrange(1, u.len() as int), k));
        } else {
            assert(find_by_key(u, k) == Some(u[0].1));
            assert(find_by_key(s, k) == Some(s[0].1));
        }
    }
}

/// Appending an element with a fresh key binds that key and changes no other.
proof fn lemma_find_by_key_push<T>(s: Seq<(u16, T)>, e: (u16, T))
    requires
        forall|j: int| 0 <= j < s.len() ==> (#[trigger] s[j]).0 != e.0,
    ensures
        find_by_key(s.push(e), e.0) == Some(e.1),
        forall|k: u16| k != e.0 ==> find_by_key(s.push(e), k) == find_by_key(s, k),
{
    let u = s.push(e);
    assert(u[s.len() as int] == e);
    assert(forall|j: int| 0 <= j < s.len() ==> (#[trigger] u[j]) == s[j]);
    lemma_find_by_key_at_index(u, e.0, s.len() as int);
    assert forall|k: u16| k != e.0 implies find_by_key(u, k) == find_by_key(s, k) by {
        lemma_find_by_key_push_one(s, e, k);
    }
}

/// An edit at frame `c` keeps a history well-formed and makes its entry the
/// one governing frame `c`.
pub proof fn lemma_set_at_wf(s: LayerEntries, c: u16, v: Option<ObjectV>)
    requires
        entries_sorted(s),
        entries_bounded(s, c),
    ensures
        entries_sorted(set_at(s, c, v)),
        entries_bounded(set_at(s, c, v), c),
        effective_at(set_at(s, c, v), c) == v,
{
    let u = set_at(s, c, v);
    if s.len() > 0 && s.last().0 == c {
        assert(forall|j: int| 0 <= j < s.len() - 1 ==> (#[trigger] s[j]) == u[j]);
        assert(u.last() == (c, v));
    } else {
        assert(forall|j: int| 0 <= j < s.len() ==> (#[trigger] s[j]) == u[j]);
        assert(u.last() == (c, v));
        if s.len() > 0 {
            assert(s.last().0 < c);
        }
    }
}

/// The governing entry of a query is the one at the greatest frame key at or
/// before the queried frame: entries at later frames never matter.
pub proof fn lemma_stored_at_greatest(s: LayerEntries, f: u16, i: int)
    requires
        0 <= i < s.len(),
        s[i].0 <= f,
        forall|j: int| i < j < s.len() ==> (#[trigger] s[j]).0 > f,
    ensures
        stored_at(s, f) == Some(s[i].1),
    decreases s.len(),
{
    if i == s.len() - 1 {
        assert(s.last() == s[i]);
    } else {
        assert(s.last().0 > f);
        let t = s.drop_last();
        assert(forall|j: int| 0 <= j < t.len() ==> #[trigger] t[j] == s[j]);
        lemma_stored_at_greatest(t, f, i);
    }
}

/// When no entry lies at or before `f`, no entry governs `f`: the effective
/// object there is absent.
pub proof fn lemma_stored_at_absent(s: LayerEntries, f: u16)
    requires
        forall|j: int| 0 <= j < s.len() ==> (#[trigger] s[j]).0 > f,
    ensures
        stored_at(s, f) is None,
    decreases s.len(),
{
    if s.len() > 0 {
        let t = s.drop_last();
        assert(forall|j: int| 0 <= j < t.len() ==> #[trigger] t[j] == s[j]);
        lemma_stored_at_absent(t, f);
    }
}

/// Editing the current frame never changes the effective object at any
/// earlier frame: placements and removals only touch the entry at the frame
/// being built, so queries at frames already committed are stable.
pub proof fn lemma_history_stable(s: LayerEntries, c: u16, v: Option<ObjectV>, f: u16)
    requires
        f < c,
    ensures
        effective_at(set_at(s, c, v), f) == effective_at(s, f),
{
    let u = set_at(s, c, v);
    if s.len() > 0 && s.last().0 == c {
        assert(u.last() == (c, v));
        assert(u.drop_last() =~= s.drop_last());
        assert(stored_at(s, f) == stored_at(s.drop_last(), f));
    } else {
        assert(u.last() == (c, v));
        assert(u.drop_last() =~= s);
    }
}

/// The number of entries a history holds exactly at frame `f`.
pub open spec fn count_at(s: LayerEntries, f: u16) -> nat
    decreases s.len(),
{
    if s.len() == 0 {
        0
    } else {
        count_at(s.drop_last(), f) + (if s.last().0 == f {
            1nat
        } else {
            0nat
        })
    }
}

proof fn lemma_count_at_le_one(s: LayerEntries, f: u16)
    requires
        entries_sorted(s),
        entries_bounded(s, f),
    ensures
        count_at(s, f) <= 1,
        count_at(s, f) == 1 <==> s.len() > 0 && s.last().0 == f,
    decreases s.len(),
{
    if s.len() > 0 {
        let t = s.drop_last();
        assert(forall|j: int| 0 <= j < t.len() ==> (#[trigger] t[j]) == s[j]);
        lemma_count_at_le_one(t, f);
        if s.last().0 == f {
            if t.len() > 0 {
                assert(t.last().0 < s.last().0);
            }
        }
    }
}

/// Placing any number of times within one frame leaves exactly one history
/// entry at that frame: an edit at the frame being built never duplicates it.
pub proof fn lemma_single_entry_per_frame(s: LayerEntries, c: u16, v: Option<ObjectV>)
    requires
        entries_sorted(s),
        entries_bounded(s, c),
    ensures
        count_at(set_at(s, c, v), c) == 1,
        forall|f: u16| f != c ==> count_at(set_at(s, c, v), f) == count_at(s, f),
{
    let u = set_at(s, c, v);
    lemma_set_at_wf(s, c, v);
    lemma_count_at_le_one(u, c);
    assert(u.last() == (c, v));
    assert forall|f: u16| f != c implies count_at(u, f) == count_at(s, f) by {
        if s.len() > 0 && s.last().0 == c {
            assert(u.drop_last() =~= s.drop_last());
            assert(count_at(u, f) == count_at(s.drop_last(), f));
            assert(count_at(s, f) == count_at(s.drop_last(), f));
        } else {
            assert(u.drop_last() =~= s);
        }
    }
}

/// A "place object" edit record, with the fields of the tag that the builder
/// reads: absent fields leave the carried-forward state untouched.
pub struct PlaceObject {
    pub depth: u16,
    pub character_id: Option<u16>,
    pub matrix: Option<Matrix>,
    pub name: Option<String>,
    pub is_move: bool,
}

/// Mathematical model of a `PlaceObject` record.
pub ghost struct PlaceV {
    pub depth: u16,
    pub character_id: Option<u16>,
    pub matrix: Option<Matrix>,
    pub name: Option<Seq<char>>,
    pub is_move: bool,
}

impl View for PlaceObject {
    type V = PlaceV;

    open spec fn view(&self) -> PlaceV {
        PlaceV {
            depth: self.depth,
            character_id: self.character_id,
            matrix: self.matrix,
            name: match self.name {
                Some(s) => Some(s@),
                None => None,
            },
            is_move: self.is_move,
        }
    }
}

/// A "remove object" edit record.
pub struct RemoveObject {
    pub depth: u16,
}

/// The structural-integrity failures of building a timeline. Each one is
/// fatal for the build: the input is malformed, and the operation that
/// detected it leaves the builder untouched.
#[derive(Copy, Clone, PartialEq, Eq, Structural, Debug)]
pub enum TimelineError {
    /// First-ever placement at a depth without a character id.
    MissingCharacterId { depth: Depth, frame: Frame },
    /// A non-move placement named a character other than the one on display.
    CharacterMismatch { depth: Depth, frame: Frame, existing: CharacterId, requested: CharacterId },
    /// Removal at a depth where nothing was ever placed.
    RemoveUnplacedDepth { depth: Depth, frame: Frame },
    /// `finish` was handed a frame count other than the number of frames
    /// actually advanced over.
    FrameCountMismatch { expected: Frame, found: Frame },
}

/// Whether a placement over starting state `start` is consistent: a first
/// placement must carry a character id, and a non-move placement that carries
/// one must name the character already on display.
pub open spec fn place_ok(start: Option<ObjectV>, rec: PlaceV) -> bool {
    match start {
        None => rec.character_id is Some,
        Some(o) => match rec.character_id {
            Some(cid) => rec.is_move || cid == o.character,
            None => true,
        },
    }
}

/// The object a consistent placement stores: the carried-forward state (or a
/// fresh object on first placement; a whole fresh object on a move), with the
/// record's explicit transform and name overrides applied on top.
pub open spec fn placed_object(start: Option<ObjectV>, rec: PlaceV) -> ObjectV {
    let base = match (start, rec.character_id) {
        (Some(o), Some(cid)) => if rec.is_move {
            fresh_object(cid)
        } else {
            o
        },
        (Some(o), None) => o,
        (None, Some(cid)) => fresh_object(cid),
        (None, None) => fresh_object(0),
    };
    ObjectV {
        character: base.character,
        matrix: match rec.matrix {
            Some(m) => m,
            None => base.matrix,
        },
        name: match rec.name {
            Some(n) => Some(n),
            None => base.name,
        },
    }
}

/// The error an inconsistent placement reports.
pub open spec fn place_error(start: Option<ObjectV>, rec: PlaceV, c: u16) -> TimelineError {
    match start {
        None => TimelineError::MissingCharacterId { depth: Depth(rec.depth), frame: Frame(c) },
        Some(o) => TimelineError::CharacterMismatch {
            depth: Depth(rec.depth),
            frame: Frame(c),
            existing: CharacterId(o.character),
            requested: CharacterId(
                match rec.character_id {
                    Some(cid) => cid,
                    None => 0,
                },
            ),
        },
    }
}

/// A move placement starts from a whole fresh object: the transform is reset
/// to the identity and the instance name to absent before the record's own
/// explicit transform or name, if any, is applied.
pub proof fn lemma_move_resets(start: Option<ObjectV>, rec: PlaceV, cid: u16)
    requires
        rec.is_move,
        rec.character_id == Some(cid),
    ensures
        placed_object(start, rec).character == cid,
        placed_object(start, rec).matrix == match rec.matrix {
            Some(m) => m,
            None => Matrix::spec_identity(),
        },
        placed_object(start, rec).name == match rec.name {
            Some(n) => Some(n),
            None => None::<Seq<char>>,
        },
{
}

/// The layer history a placement or removal starts from: the one on record
/// for the depth, or the empty history when the depth was never touched.
pub open spec fn prior_entries(ls: Seq<(u16, LayerEntries)>, d: u16) -> LayerEntries {
    match find_by_key(ls, d) {
        Some(s) => s,
        None => Seq::empty(),
    }
}

/// The per-frame action lists after appending one block at frame `c`: blocks
/// of one frame accumulate in encounter order.
pub open spec fn add_action(a: Seq<(u16, Seq<Code>)>, c: u16, code: Code) -> Seq<(u16, Seq<Code>)> {
    if a.len() > 0 && a.last().0 == c {
        a.update(a.len() - 1, (c, a.last().1.push(code)))
    } else {
        a.push((c, seq![code]))
    }
}

/// Every layer history is strictly frame-ordered and lies within the first
/// `c` frames; action frames are strictly increasing and in range.
pub open spec fn views_wf(ls: Seq<(u16, LayerEntries)>, av: Seq<(u16, Seq<Code>)>, c: u16) -> bool {
    &&& forall|i: int|
        0 <= i < ls.len() ==> entries_sorted((#[trigger] ls[i]).1) && entries_bounded(ls[i].1, c)
    &&& forall|i: int, j: int|
        0 <= i < j < av.len() ==> (#[trigger] av[i]).0 < (#[trigger] av[j]).0
    &&& forall|i: int| 0 <= i < av.len() ==> (#[trigger] av[i]).0 <= c
}

/// A frame-by-frame animated scene: a sparse display list keyed by depth,
/// per-frame action blocks, and the total frame count. Immutable once
/// `TimelineBuilder::finish` has produced it.
pub struct Timeline {
    layers: Vec<(Depth, Layer)>,
    actions: Vec<(Frame, Vec<Code>)>,
    frame_count: Frame,
}

impl Timeline {
    pub closed spec fn layers_view(&self) -> Seq<(u16, LayerEntries)> {
        self.layers@.map_values(|e: (Depth, Layer)| (e.0.0, e.1@))
    }

    pub closed spec fn actions_view(&self) -> Seq<(u16, Seq<Code>)> {
        self.actions@.map_values(|e: (Frame, Vec<Code>)| (e.0.0, e.1@))
    }

    pub closed spec fn spec_frame_count(&self) -> u16 {
        self.frame_count.0
    }

    pub open spec fn wf_at(&self, c: u16) -> bool {
        views_wf(self.layers_view(), self.actions_view(), c)
    }

    pub open spec fn wf(&self) -> bool {
        self.wf_at(self.spec_frame_count())
    }

    pub fn frame_count(&self) -> (r: Frame)
        ensures
            r.0 == self.spec_frame_count(),
    {
        self.frame_count
    }

    /// The layer on record at depth `d`, if an object was ever placed there.
    pub fn layer(&self, d: Depth) -> (r: Option<&Layer>)
        ensures
            match r {
                Some(l) => find_by_key(self.layers_view(), d.0) == Some(l@),
                None => find_by_key(self.layers_view(), d.0) is None,
            },
    {
        let idx = find_layer_index(&self.layers, d.0);
        proof {
            let lv = self.layers_view();
            assert(lv.len() == self.layers@.len());
            match idx {
                Some(i) => {
                    assert(forall|j: int|
                        0 <= j < lv.len() ==> #[trigger] lv[j] == (
                        self.layers@[j].0.0,
                        self.layers@[j].1@,
                        ));
                    lemma_find_by_key_at_index(lv, d.0, i as int);
                },
                None => {
                    assert(forall|j: int|
                        0 <= j < lv.len() ==> #[trigger] lv[j] == (
                        self.layers@[j].0.0,
                        self.layers@[j].1@,
                        ));
                    lemma_find_by_key_absent(lv, d.0);
                },
            }
        }
        match idx {
            Some(i) => Some(&self.layers[i].1),
            None => None,
        }
    }

    /// The action blocks attached to frame `f`, in encounter order, if any.
    pub fn actions_at(&self, f: Frame) -> (r: Option<&Vec<Code>>)
        ensures
            match r {
                Some(v) => find_by_key(self.actions_view(), f.0) == Some(v@),
                None => find_by_key(self.actions_view(), f.0) is None,
            },
    {
        let idx = find_action_index(&self.actions, f.0);
        proof {
            let av = self.actions_view();
            assert(av.len() == self.actions@.len());
            assert(forall|j: int|
                0 <= j < av.len() ==> #[trigger] av[j] == (
                self.actions@[j].0.0,
                self.actions@[j].1@,
                ));
            match idx {
                Some(i) => {
                    lemma_find_by_key_at_index(av, f.0, i as int);
                },
                None => {
                    lemma_find_by_key_absent(av, f.0);
                },
            }
        }
        match idx {
            Some(i) => Some(&self.actions[i].1),
            None => None,
        }
    }
}

fn find_layer_index(layers: &Vec<(Depth, Layer)>, d: u16) -> (r: Option<usize>)
    ensures
        match r {
            Some(i) => i < layers@.len() && layers@[i as int].0.0 == d && forall|j: int|
                0 <= j < i ==> (#[trigger] layers@[j]).0.0 != d,
            None => forall|j: int| 0 <= j < layers@.len() ==> (#[trigger] layers@[j]).0.0 != d,
        },
{
    let mut i: usize = 0;
    while i < layers.len()
        invariant
            i <= layers@.len(),
            forall|j: int| 0 <= j < i ==> (#[trigger] layers@[j]).0.0 != d,
        decreases layers@.len() - i,
    {
        if layers[i].0.0 == d {
            return Some(i);
        }
        i = i + 1;
    }
    None
}

fn find_action_index(actions: &Vec<(Frame, Vec<Code>)>, f: u16) -> (r: Option<usize>)
    ensures
        match r {
            Some(i) => i < actions@.len() && actions@[i as int].0.0 == f && forall|j: int|
                0 <= j < i ==> (#[trigger] actions@[j]).0.0 != f,
            None => forall|j: int| 0 <= j < actions@.len() ==> (#[trigger] actions@[j]).0.0 != f,
        },
{
    let mut i: usize = 0;
    while i < actions.len()
        invariant
            i <= actions@.len(),
            forall|j: int| 0 <= j < i ==> (#[trigger] actions@[j]).0.0 != f,
        decreases actions@.len() - i,
    {
        if actions[i].0.0 == f {
            return Some(i);
        }
        i = i + 1;
    }
    None
}

/// Consumes the per-frame edit stream in tag order and produces the
/// `Timeline`: placements and removals always edit the frame currently being
/// built, `advance_frame` moves to the next, and `finish` seals the result.
pub struct TimelineBuilder {
    timeline: Timeline,
    current_frame: Frame,
}

impl TimelineBuilder {
    pub closed spec fn layers_view(&self) -> Seq<(u16, LayerEntries)> {
        self.timeline.layers_view()
    }

    pub closed spec fn actions_view(&self) -> Seq<(u16, Seq<Code>)> {
        self.timeline.actions_view()
    }

    /// The 0-based frame currently being built.
    pub closed spec fn cur(&self) -> u16 {
        self.current_frame.0
    }

    pub open spec fn wf(&self) -> bool {
        views_wf(self.layers_view(), self.actions_view(), self.cur())
    }

    pub fn new() -> (r: TimelineBuilder)
        ensures
            r.wf(),
            r.cur() == 0,
            r.layers_view() == Seq::<(u16, LayerEntries)>::empty(),
            r.actions_view() == Seq::<(u16, Seq<Code>)>::empty(),
    {
        let r = TimelineBuilder {
            timeline: Timeline { layers: Vec::new(), actions: Vec::new(), frame_count: Frame(0) },
            current_frame: Frame(0),
        };
        proof {
            assert(r.layers_view() =~= Seq::<(u16, LayerEntries)>::empty());
            assert(r.actions_view() =~= Seq::<(u16, Seq<Code>)>::empty());
        }
        r
    }

    pub fn current_frame(&self) -> (r: Frame)
        ensures
            r.0 == self.cur(),
    {
        self.current_frame
    }
}

impl Default for TimelineBuilder {
    fn default() -> (r: TimelineBuilder)
        ensures
            r.wf(),
            r.cur() == 0,
            r.layers_view() == Seq::<(u16, LayerEntries)>::empty(),
            r.actions_view() == Seq::<(u16, Seq<Code>)>::empty(),
    {
        TimelineBuilder::new()
    }
}

impl TimelineBuilder {

    /// Moves on to the next frame. Nothing is copied: earlier states are
    /// recovered lazily by the range lookup of `effective_at`.
    pub fn advance_frame(&mut self)
        requires
            old(self).wf(),
            old(self).cur() < 65535,
        ensures
            final(self).wf(),
            final(self).cur() == old(self).cur() + 1,
            final(self).layers_view() == old(self).layers_view(),
            final(self).actions_view() == old(self).actions_view(),
    {
        self.current_frame = Frame(self.current_frame.0 + 1);
        proof {
            let c = self.cur();
            assert forall|i: int| 0 <= i < self.layers_view().len() implies entries_bounded(
                (#[trigger] self.layers_view()[i]).1,
                c,
            ) by {
                assert(entries_bounded(self.layers_view()[i].1, old(self).cur()));
            }
        }
    }

    /// Inserts or updates the object at the record's depth for the frame
    /// currently being built. The starting state is the entry already made at
    /// this frame, or else the most recent earlier state carried forward; a
    /// first-ever placement starts from a fresh object and must carry a
    /// character id. A move placement replaces the whole object for the
    /// record's character; a non-move placement naming a different character
    /// than the one on display is a fatal structural error. An explicit
    /// transform or name in the record overwrites the carried one.
    pub fn place_object(&mut self, place: &PlaceObject) -> (r: Result<(), TimelineError>)
        requires
            old(self).wf(),
        ensures
            final(self).wf(),
            final(self).cur() == old(self).cur(),
            final(self).actions_view() == old(self).actions_view(),
            ({
                let c = old(self).cur();
                let prior = prior_entries(old(self).layers_view(), place.depth);
                let start = effective_at(prior, c);
                match r {
                    Ok(()) => place_ok(start, place@) && find_by_key(
                        final(self).layers_view(),
                        place.depth,
                    ) == Some(set_at(prior, c, Some(placed_object(start, place@)))) && forall|
                        k: u16,
                    |
                        k != place.depth ==> find_by_key(final(self).layers_view(), k)
                            == find_by_key(old(self).layers_view(), k),
                    Err(e) => !place_ok(start, place@) && final(self).layers_view() == old(
                        self,
                    ).layers_view() && e == place_error(start, place@, c),
                }
            }),
    {
        let c: u16 = self.current_frame.0;
        let ghost lv0 = self.layers_view();
        proof {
            assert(forall|j: int|
                0 <= j < self.timeline.layers@.len() ==> #[trigger] lv0[j] == (
                self.timeline.layers@[j].0.0,
                self.timeline.layers@[j].1@,
                ));
        }
        let idx_opt = find_layer_index(&self.timeline.layers, place.depth);
        let ghost prior = prior_entries(lv0, place.depth);
        proof {
            match idx_opt {
                Some(i) => {
                    lemma_find_by_key_at_index(lv0, place.depth, i as int);
                    assert(prior == lv0[i as int].1);
                    assert(entries_sorted(prior) && entries_bounded(prior, c));
                },
                None => {
                    lemma_find_by_key_absent(lv0, place.depth);
                    assert(prior =~= Seq::<(u16, Option<ObjectV>)>::empty());
                },
            }
        }
        let start: Option<Object> = match idx_opt {
            Some(i) => {
                let lay = &self.timeline.layers[i];
                let n: usize = lay.1.frames.len();
                if n == 0 {
                    None
                } else {
                    proof {
                        assert(prior[n - 1] == entry_view(lay.1.frames@[n - 1]));
                        assert(prior.last().0 <= c);
                        assert(stored_at(prior, c) == Some(prior.last().1));
                    }
                    match &lay.1.frames[n - 1].1 {
                        Some(o) => Some(o.clone()),
                        None => None,
                    }
                }
            },
            None => None,
        };
        let ghost start_v = effective_at(prior, c);
        proof {
            match &start {
                Some(o) => assert(start_v == Some(o@)),
                None => assert(start_v is None),
            }
        }
        if start.is_none() && place.character_id.is_none() {
            return Err(
                TimelineError::MissingCharacterId {
                    depth: Depth(place.depth),
                    frame: self.current_frame,
                },
            );
        }
        match (&start, place.character_id) {
            (Some(o), Some(cid)) => {
                if !place.is_move && o.character.0 != cid {
                    return Err(
                        TimelineError::CharacterMismatch {
                            depth: Depth(place.depth),
                            frame: self.current_frame,
                            existing: o.character,
                            requested: CharacterId(cid),
                        },
                    );
                }
            },
            _ => {},
        }
        let base: Object = if place.is_move && place.character_id.is_some() {
            Object::new(CharacterId(place.character_id.unwrap()))
        } else {
            match start {
                Some(o) => o,
                None => Object::new(CharacterId(place.character_id.unwrap())),
            }
        };
        let obj: Object = Object {
            character: base.character,
            matrix: match place.matrix {
                Some(m) => m,
                None => base.matrix,
            },
            name: match &place.name {
                Some(s) => Some(s.clone()),
                None => base.name,
            },
        };
        let ghost ov = obj@;
        proof {
            assert(ov == placed_object(start_v, place@));
            assert(place_ok(start_v, place@));
        }
        match idx_opt {
            Some(i) => {
                let lay = &mut self.timeline.layers[i];
                let n: usize = lay.1.frames.len();
                if n > 0 && lay.1.frames[n - 1].0.0 == c {
                    proof {
                        assert(prior[n - 1] == entry_view(lay.1.frames@[n - 1]));
                        assert(prior.last().0 == c);
                    }
                    let _ = lay.1.frames.pop();
                    lay.1.frames.push((Frame(c), Some(obj)));
                    proof {
                        assert(lay.1@ =~= set_at(prior, c, Some(ov)));
                    }
                } else {
                    proof {
                        if n > 0 {
                            assert(prior[n - 1] == entry_view(lay.1.frames@[n - 1]));
                            assert(prior.last().0 != c);
                        }
                    }
                    lay.1.frames.push((Frame(c), Some(obj)));
                    proof {
                        assert(lay.1@ =~= set_at(prior, c, Some(ov)));
                    }
                }
                proof {
                    let e = (place.depth, set_at(prior, c, Some(ov)));
                    assert(self.layers_view() =~= lv0.update(i as int, e));
                    lemma_set_at_wf(prior, c, Some(ov));
                    lemma_find_by_key_update(lv0, i as int, e);
                    assert(forall|j: int|
                        0 <= j < lv0.len() && j != i ==> #[trigger] self.layers_view()[j]
                            == lv0[j]);
                    assert(self.actions_view() =~= old(self).actions_view());
                }
            },
            None => {
                let mut frames: Vec<(Frame, Option<Object>)> = Vec::new();
                frames.push((Frame(c), Some(obj)));
                self.timeline.layers.push((Depth(place.depth), Layer { frames }));
                proof {
                    let nl = set_at(prior, c, Some(ov));
                    assert(nl =~= seq![(c, Some(ov))]);
                    let lv1 = self.layers_view();
                    assert(lv1.len() == lv0.len() + 1);
                    assert(lv1[lv0.len() as int].1 =~= nl);
                    assert(lv1[lv0.len() as int].0 == place.depth);
                    assert(lv1 =~= lv0.push((place.depth, nl)));
                    lemma_find_by_key_push(lv0, (place.depth, nl));
                    assert(entries_sorted(nl));
                    assert(entries_bounded(nl, c));
                    assert(forall|j: int|
                        0 <= j < lv0.len() ==> #[trigger] lv1[j] == lv0[j]);
                    assert(self.actions_view() =~= old(self).actions_view());
                }
            },
        }
        Ok(())
    }

    /// Appends one compiled action block to the frame currently being built;
    /// blocks of one frame accumulate in encounter order.
    pub fn do_action(&mut self, code: Code)
        requires
            old(self).wf(),
        ensures
            final(self).wf(),
            final(self).cur() == old(self).cur(),
            final(self).layers_view() == old(self).layers_view(),
            final(self).actions_view() == add_action(
                old(self).actions_view(),
                old(self).cur(),
                code,
            ),
    {
        let c: u16 = self.current_frame.0;
        let ghost av0 = self.actions_view();
        proof {
            assert(forall|j: int|
                0 <= j < self.timeline.actions@.len() ==> #[trigger] av0[j] == (
                self.timeline.actions@[j].0.0,
                self.timeline.actions@[j].1@,
                ));
        }
        let n: usize = self.timeline.actions.len();
        if n > 0 && self.timeline.actions[n - 1].0.0 == c {
            let entry = &mut self.timeline.actions[n - 1];
            entry.1.push(code);
            proof {
                assert(av0.len() == n as int);
                assert(av0[n - 1] == (
                    old(self).timeline.actions@[n - 1].0.0,
                    old(self).timeline.actions@[n - 1].1@,
                ));
                assert(av0.last() == (c, old(self).timeline.actions@[n - 1].1@)) by {
                    assert(av0.last() == av0[n - 1]);
                    assert(av0[n - 1].0 == c);
                    assert(av0[n - 1].1 == old(self).timeline.actions@[n - 1].1@);
                };
                assert(self.actions_view() =~= add_action(av0, c, code));
                assert(forall|j: int|
                    0 <= j < self.actions_view().len() ==> (#[trigger] self.actions_view()[j]).0
                        == av0[j].0);
            }
        } else {
            let mut v: Vec<Code> = Vec::new();
            v.push(code);
            self.timeline.actions.push((Frame(c), v));
            proof {
                assert(v@ =~= seq![code]);
                assert(self.actions_view() =~= av0.push((c, seq![code])));
                if av0.len() > 0 {
                    assert(av0.last() == av0[n - 1]);
                    assert(av0.last().0 != c);
                }
                assert(forall|j: int|
                    0 <= j < av0.len() ==> (#[trigger] self.actions_view()[j]).0 == av0[j].0);
                assert(forall|i: int|
                    0 <= i < av0.len() ==> (#[trigger] av0[i]).0 <= c);
            }
        }
        proof {
            assert(self.layers_view() =~= old(self).layers_view());
        }
    }

    /// Inserts a removal tombstone at the current frame. The depth must
    /// already carry a layer: removing from a never-placed depth is a fatal
    /// structural error, not a silent no-op.
    pub fn remove_object(&mut self, remove: &RemoveObject) -> (r: Result<(), TimelineError>)
        requires
            old(self).wf(),
        ensures
            final(self).wf(),
            final(self).cur() == old(self).cur(),
            final(self).actions_view() == old(self).actions_view(),
            ({
                let c = old(self).cur();
                match find_by_key(old(self).layers_view(), remove.depth) {
                    None => r == Err::<(), TimelineError>(
                        TimelineError::RemoveUnplacedDepth {
                            depth: Depth(remove.depth),
                            frame: Frame(c),
                        },
                    ) && final(self).layers_view() == old(self).layers_view(),
                    Some(prior) => r == Ok::<(), TimelineError>(()) && find_by_key(
                        final(self).layers_view(),
                        remove.depth,
                    ) == Some(set_at(prior, c, None)) && forall|k: u16|
                        k != remove.depth ==> find_by_key(final(self).layers_view(), k)
                            == find_by_key(old(self).layers_view(), k),
                }
            }),
    {
        let c: u16 = self.current_frame.0;
        let ghost lv0 = self.layers_view();
        proof {
            assert(forall|j: int|
                0 <= j < self.timeline.layers@.len() ==> #[trigger] lv0[j] == (
                self.timeline.layers@[j].0.0,
                self.timeline.layers@[j].1@,
                ));
        }
        let idx_opt = find_layer_index(&self.timeline.layers, remove.depth);
        match idx_opt {
            None => {
                proof {
                    lemma_find_by_key_absent(lv0, remove.depth);
                    assert(self.layers_view() =~= lv0);
                }
                Err(
                    TimelineError::RemoveUnplacedDepth {
                        depth: Depth(remove.depth),
                        frame: self.current_frame,
                    },
                )
            },
            Some(i) => {
                let ghost prior = lv0[i as int].1;
                proof {
                    lemma_find_by_key_at_index(lv0, remove.depth, i as int);
                    assert(entries_sorted(prior) && entries_bounded(prior, c));
                }
                let lay = &mut self.timeline.layers[i];
                let n: usize = lay.1.frames.len();
                if n > 0 && lay.1.frames[n - 1].0.0 == c {
                    proof {
                        assert(prior[n - 1] == entry_view(lay.1.frames@[n - 1]));
                        assert(prior.last().0 == c);
                    }
                    let _ = lay.1.frames.pop();
                    lay.1.frames.push((Frame(c), None));
                    proof {
                        assert(lay.1@ =~= set_at(prior, c, None));
                    }
                } else {
                    proof {
                        if n > 0 {
                            assert(prior[n - 1] == entry_view(lay.1.frames@[n - 1]));
                            assert(prior.last().0 != c);
                        }
                    }
                    lay.1.frames.push((Frame(c), None));
                    proof {
                        assert(lay.1@ =~= set_at(prior, c, None));
                    }
                }
                proof {
                    let e = (remove.depth, set_at(prior, c, None));
                    assert(self.layers_view() =~= lv0.update(i as int, e));
                    lemma_set_at_wf(prior, c, None);
                    lemma_find_by_key_update(lv0, i as int, e);
                    assert(forall|j: int|
                        0 <= j < lv0.len() && j != i ==> #[trigger] self.layers_view()[j]
                            == lv0[j]);
                    assert(self.actions_view() =~= old(self).actions_view());
                }
                Ok(())
            },
        }
    }

    /// Seals the timeline. The number of `advance_frame` calls made must
    /// equal `frame_count`; a mismatch is a fatal structural error, since a
    /// truncated timeline would silently corrupt every later consumer.
    pub fn finish(self, frame_count: Frame) -> (r: Result<Timeline, TimelineError>)
        requires
            self.wf(),
        ensures
            match r {
                Ok(t) => self.cur() == frame_count.0 && t.wf() && t.layers_view()
                    == self.layers_view() && t.actions_view() == self.actions_view()
                    && t.spec_frame_count() == frame_count.0,
                Err(e) => self.cur() != frame_count.0 && e == (TimelineError::FrameCountMismatch {
                    expected: frame_count,
                    found: Frame(self.cur()),
                }),
            },
    {
        if self.current_frame.0 != frame_count.0 {
            return Err(
                TimelineError::FrameCountMismatch { expected: frame_count, found: self.current_frame },
            );
        }
        let mut t = self.timeline;
        t.frame_count = frame_count;
        Ok(t)
    }
}

} // verus!

