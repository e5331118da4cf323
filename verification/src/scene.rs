//! The scene explorer's hierarchy: one row per generator operator and,
//! for USD stages, rows for the prims' ancestors and the prims themselves,
//! built from their paths.

use vstd::prelude::*;
use crate::text::{chars_equal, chars_of, lowercase, seq_contains, str_contains, string_from_chars, to_lowercase};
use crate::types::{EvalResult, NamedMesh, NodeId, SceneObjectId};

verus! {

// ── Icons ───────────────────────────────────────────────────────────────────

/// The icon for a prim whose lower-cased name is `lower`.
pub open spec fn icon_of_lower(lower: Seq<char>, has_children: bool) -> Seq<char> {
    if has_children {
        if seq_contains(lower, "geom"@) {
            "🔷"@
        } else if seq_contains(lower, "xform"@) {
            "⟲"@
        } else if seq_contains(lower, "look"@) || seq_contains(lower, "mat"@) {
            "🎨"@
        } else {
            "📁"@
        }
    } else if seq_contains(lower, "cylinder"@) || seq_contains(lower, "tube"@) {
        "🔩"@
    } else if seq_contains(lower, "sphere"@) || seq_contains(lower, "ball"@) {
        "🔵"@
    } else if seq_contains(lower, "cube"@) || seq_contains(lower, "box"@) {
        "🟫"@
    } else if seq_contains(lower, "plane"@) || seq_contains(lower, "grid"@) {
        "⬜"@
    } else if seq_contains(lower, "cone"@) {
        "🔺"@
    } else {
        "🔹"@
    }
}

/// The icon for a prim named `name`: chosen by words in its lower-cased
/// name; groups and leaves have separate icon sets.
pub open spec fn spec_prim_icon(name: Seq<char>, has_children: bool) -> Seq<char> {
    icon_of_lower(lowercase(name), has_children)
}

/// The icon for a prim whose lower-cased name is `lower`.
pub fn icon_for_lowercase(lower: &str, has_children: bool) -> (s: &'static str)
    ensures
        s@ == icon_of_lower(lower@, has_children),
{
    if has_children {
        if str_contains(lower, "geom") {
            return "🔷";
        }
        if str_contains(lower, "xform") {
            return "⟲";
        }
        if str_contains(lower, "look") || str_contains(lower, "mat") {
            return "🎨";
        }
        return "📁";
    }
    if str_contains(lower, "cylinder") || str_contains(lower, "tube") {
        return "🔩";
    }
    if str_contains(lower, "sphere") || str_contains(lower, "ball") {
        return "🔵";
    }
    if str_contains(lower, "cube") || str_contains(lower, "box") {
        return "🟫";
    }
    if str_contains(lower, "plane") || str_contains(lower, "grid") {
        return "⬜";
    }
    if str_contains(lower, "cone") {
        return "🔺";
    }
    "🔹"
}

/// The icon for a prim named `name`.
pub fn prim_icon(name: &str, has_children: bool) -> (s: &'static str)
    ensures
        s@ == spec_prim_icon(name@, has_children),
{
    let lower = to_lowercase(name);
    icon_for_lowercase(lower.as_str(), has_children)
}

// ── Prim paths ──────────────────────────────────────────────────────────────

/// `p` without its leading slashes.
pub open spec fn trim_slashes(p: Seq<char>) -> Seq<char>
    decreases p.len(),
{
    if p.len() > 0 && p[0] == '/' {
        trim_slashes(p.drop_first())
    } else {
        p
    }
}

/// The pieces of `p` between slashes (at least one, possibly empty).
pub open spec fn split_slash(p: Seq<char>) -> Seq<Seq<char>>
    decreases p.len(),
{
    if p.len() == 0 {
        seq![seq![]]
    } else {
        let r = split_slash(p.drop_last());
        if p.last() == '/' {
            r.push(seq![])
        } else {
            r.update(r.len() - 1, r.last().push(p.last()))
        }
    }
}

/// The segments of a prim path: the pieces between slashes after leading
/// slashes are dropped.
pub open spec fn path_segments(p: Seq<char>) -> Seq<Seq<char>> {
    split_slash(trim_slashes(p))
}

/// The segments joined with slashes.
pub open spec fn join_slash(segs: Seq<Seq<char>>) -> Seq<char>
    decreases segs.len(),
{
    if segs.len() == 0 {
        seq![]
    } else if segs.len() == 1 {
        segs[0]
    } else {
        join_slash(segs.drop_last()) + seq!['/'] + segs.last()
    }
}

pub proof fn lemma_split_nonempty(p: Seq<char>)
    ensures
        split_slash(p).len() >= 1,
    decreases p.len(),
{
    if p.len() > 0 {
        lemma_split_nonempty(p.drop_last());
    }
}

/// The views of a vector of character vectors.
pub open spec fn views(v: Seq<Vec<char>>) -> Seq<Seq<char>> {
    v.map_values(|w: Vec<char>| w@)
}

/// The number of leading slashes of `v`.
fn leading_slashes(v: &Vec<char>) -> (k: usize)
    ensures
        k <= v@.len(),
        v@.skip(k as int) == trim_slashes(v@),
{
    let mut k: usize = 0;
    assert(v@.skip(0) =~= v@);
    while k < v.len() && v[k] == '/'
        invariant
            k <= v@.len(),
            trim_slashes(v@.skip(k as int)) == trim_slashes(v@),
        decreases v@.len() - k,
    {
        assert(v@.skip(k as int).drop_first() =~= v@.skip(k + 1));
        k = k + 1;
    }
    k
}

/// The pieces between slashes of `v` from position `from` on.
fn split_from(v: &Vec<char>, from: usize) -> (segs: Vec<Vec<char>>)
    requires
        from <= v@.len(),
    ensures
        views(segs@) == split_slash(v@.skip(from as int)),
{
    let mut done: Vec<Vec<char>> = Vec::new();
    let mut cur: Vec<char> = Vec::new();
    let mut i: usize = from;
    assert(v@.subrange(from as int, from as int) =~= seq![]);
    assert(views(done@).push(cur@) =~= seq![seq![]]);
    while i < v.len()
        invariant
            from <= i <= v@.len(),
            views(done@).push(cur@) == split_slash(v@.subrange(from as int, i as int)),
        decreases v@.len() - i,
    {
        let c = v[i];
        let ghost q = v@.subrange(from as int, i as int);
        assert(v@.subrange(from as int, i + 1).drop_last() =~= q);
        assert(v@.subrange(from as int, i + 1).last() == c);
        if c == '/' {
            let ghost d0 = done@;
            let ghost c0 = cur@;
            done.push(cur);
            cur = Vec::new();
            assert(views(done@) =~= views(d0).push(c0));
            assert(views(done@).push(cur@) =~= views(d0).push(c0).push(seq![]));
        } else {
            let ghost d0 = done@;
            let ghost c0 = cur@;
            cur.push(c);
            assert(views(done@).push(cur@) =~= views(d0).push(c0).update(views(d0).len() as int, c0.push(c)));
        }
        i = i + 1;
    }
    assert(v@.subrange(from as int, v@.len() as int) =~= v@.skip(from as int));
    let ghost d0 = done@;
    done.push(cur);
    assert(views(done@) =~= views(d0).push(views(done@).last()));
    done
}

/// The segments of the prim path `path`.
pub fn segments_of(path: &str) -> (segs: Vec<Vec<char>>)
    ensures
        views(segs@) == path_segments(path@),
        segs@.len() >= 1,
{
    let v = chars_of(path);
    let k = leading_slashes(&v);
    let segs = split_from(&v, k);
    proof {
        lemma_split_nonempty(trim_slashes(path@));
    }
    segs
}

// ── Scene rows ──────────────────────────────────────────────────────────────

/// An entry of the scene explorer.
#[derive(Clone, Debug)]
pub struct SceneObject {
    pub id: SceneObjectId,
    pub name: String,
    pub icon: &'static str,
    pub depth: usize,
    pub has_children: bool,
    pub expanded: bool,
    pub node_id: NodeId,
    pub prim_path: Option<String>,
}

/// What a row shows: name, icon, depth, whether it has children, whether
/// it is expanded, its operator, and its prim path.
pub type Row = (Seq<char>, Seq<char>, usize, bool, bool, NodeId, Option<Seq<char>>);

/// The row a scene object shows.
pub open spec fn row_view(o: SceneObject) -> Row {
    (
        o.name@,
        o.icon@,
        o.depth,
        o.has_children,
        o.expanded,
        o.node_id,
        match o.prim_path {
            Some(p) => Some(p@),
            None => None,
        },
    )
}

/// Whether an earlier row named `name` was expanded: the last one with
/// that name decides; rows never seen are expanded.
pub open spec fn spec_expansion(objs: Seq<SceneObject>, name: Seq<char>) -> bool
    decreases objs.len(),
{
    if objs.len() == 0 {
        true
    } else if objs.last().name@ == name {
        objs.last().expanded
    } else {
        spec_expansion(objs.drop_last(), name)
    }
}

/// The row of an ancestor prim named `seg` at depth `d`.
pub open spec fn parent_row(old: Seq<SceneObject>, node_id: NodeId, seg: Seq<char>, d: int) -> Row {
    (seg, spec_prim_icon(seg, true), d as usize, true, spec_expansion(old, seg), node_id, None)
}

/// The ancestor rows of a prim with segments `segs`, for depths
/// `1 .. upto`, and the ancestor paths seen afterwards: an ancestor gets a
/// row the first time its path (its segments up to it, joined) is seen.
pub open spec fn parent_rows(
    old: Seq<SceneObject>,
    node_id: NodeId,
    segs: Seq<Seq<char>>,
    seen: Seq<Seq<char>>,
    upto: nat,
) -> (Seq<Row>, Seq<Seq<char>>)
    decreases upto,
{
    if upto <= 1 {
        (seq![], seen)
    } else {
        let prev = parent_rows(old, node_id, segs, seen, (upto - 1) as nat);
        let d = upto - 1;
        let key = join_slash(segs.take(d + 1));
        if prev.1.contains(key) {
            prev
        } else {
            (prev.0.push(parent_row(old, node_id, segs[d], d)), prev.1.push(key))
        }
    }
}

/// The row of the prim itself: named by its last segment, at depth one less
/// than its number of segments (at least one).
pub open spec fn leaf_row(node_id: NodeId, path: Seq<char>) -> Row {
    let segs = path_segments(path);
    let n = segs.len();
    (
        segs.last(),
        spec_prim_icon(segs.last(), false),
        (if n >= 2 { n - 1 } else { 1 }) as usize,
        false,
        true,
        node_id,
        Some(path),
    )
}

/// The rows of one prim given the ancestor paths seen so far, and the
/// ancestor paths seen afterwards.
pub open spec fn prim_rows(old: Seq<SceneObject>, node_id: NodeId, path: Seq<char>, seen: Seq<Seq<char>>) -> (
    Seq<Row>,
    Seq<Seq<char>>,
) {
    let segs = path_segments(path);
    let p = parent_rows(old, node_id, segs, seen, (segs.len() - 1) as nat);
    (p.0.push(leaf_row(node_id, path)), p.1)
}

/// The rows of the first `k` prims of a stage, and the ancestor paths seen.
pub open spec fn named_rows(old: Seq<SceneObject>, node_id: NodeId, paths: Seq<Seq<char>>, k: nat) -> (
    Seq<Row>,
    Seq<Seq<char>>,
)
    decreases k,
{
    if k == 0 {
        (seq![], seq![])
    } else {
        let prev = named_rows(old, node_id, paths, (k - 1) as nat);
        let pr = prim_rows(old, node_id, paths[k - 1], prev.1);
        (prev.0 + pr.0, pr.1)
    }
}

/// The prim paths of a stage's meshes.
pub open spec fn prim_paths<M>(prims: Seq<NamedMesh<M>>) -> Seq<Seq<char>> {
    prims.map_values(|p: NamedMesh<M>| p.path@)
}

/// The rows of one evaluated generator: one row for a single mesh; for a
/// stage, a group row and the rows of its prims.
pub open spec fn entry_rows<M>(old: Seq<SceneObject>, e: (NodeId, String, EvalResult<M>)) -> Seq<Row> {
    match e.2 {
        EvalResult::Single(_) => seq![(e.1@, "🔹"@, 0usize, false, true, e.0, None)],
        EvalResult::Named(prims) => seq![
            (e.1@, "📂"@, 0usize, prims@.len() > 0, spec_expansion(old, e.1@), e.0, None),
        ] + named_rows(old, e.0, prim_paths(prims@), prims@.len()).0,
    }
}

/// The rows of all evaluated generators, in order.
pub open spec fn scene_rows<M>(old: Seq<SceneObject>, entries: Seq<(NodeId, String, EvalResult<M>)>) -> Seq<Row>
    decreases entries.len(),
{
    if entries.len() == 0 {
        seq![]
    } else {
        scene_rows(old, entries.drop_last()) + entry_rows(old, entries.last())
    }
}

/// `after` is `before` followed by objects showing `rows`, numbered from
/// `first_id` on.
pub open spec fn extends_with(before: Seq<SceneObject>, after: Seq<SceneObject>, rows: Seq<Row>, first_id: int) -> bool {
    &&& after.len() == before.len() + rows.len()
    &&& after.take(before.len() as int) == before
    &&& forall|i: int|
        0 <= i < rows.len() ==> row_view(#[trigger] after[before.len() + i]) == rows[i]
            && after[before.len() + i].id == SceneObjectId((first_id + i) as usize)
}

proof fn lemma_extends_trans(a: Seq<SceneObject>, b: Seq<SceneObject>, c: Seq<SceneObject>, r1: Seq<Row>, r2: Seq<Row>, id: int)
    requires
        extends_with(a, b, r1, id),
        extends_with(b, c, r2, id + r1.len()),
    ensures
        extends_with(a, c, r1 + r2, id),
{
    assert(c.take(a.len() as int) =~= b.take(a.len() as int)) by {
        assert(c.take(b.len() as int) == b);
    }
    assert forall|i: int| 0 <= i < (r1 + r2).len() implies row_view(#[trigger] c[a.len() + i]) == (r1 + r2)[i]
        && c[a.len() + i].id == SceneObjectId((id + i) as usize) by {
        if i < r1.len() {
            assert(c.take(b.len() as int)[a.len() + i] == c[a.len() + i]);
            assert(b[a.len() + i] == c[a.len() + i]);
        } else {
            let j = i - r1.len();
            assert(c[b.len() + j] == c[a.len() + i]);
        }
    }
}

proof fn lemma_extends_refl(a: Seq<SceneObject>, id: int)
    ensures
        extends_with(a, a, seq![], id),
{
    assert(a.take(a.len() as int) =~= a);
}

proof fn lemma_parent_rows_grow(old: Seq<SceneObject>, node_id: NodeId, segs: Seq<Seq<char>>, seen: Seq<Seq<char>>, a: nat, b: nat)
    requires
        a <= b,
    ensures
        parent_rows(old, node_id, segs, seen, a).0.len() <= parent_rows(old, node_id, segs, seen, b).0.len(),
    decreases b,
{
    if a < b {
        lemma_parent_rows_grow(old, node_id, segs, seen, a, (b - 1) as nat);
    }
}

proof fn lemma_named_rows_grow(old: Seq<SceneObject>, node_id: NodeId, paths: Seq<Seq<char>>, a: nat, b: nat)
    requires
        a <= b,
    ensures
        named_rows(old, node_id, paths, a).0.len() <= named_rows(old, node_id, paths, b).0.len(),
    decreases b,
{
    if a < b {
        lemma_named_rows_grow(old, node_id, paths, a, (b - 1) as nat);
    }
}

proof fn lemma_scene_rows_prefix<M>(old: Seq<SceneObject>, entries: Seq<(NodeId, String, EvalResult<M>)>, k: int)
    requires
        0 <= k < entries.len(),
    ensures
        scene_rows(old, entries.take(k + 1)) == scene_rows(old, entries.take(k)) + entry_rows(old, entries[k]),
        scene_rows(old, entries.take(k + 1)).len() <= scene_rows(old, entries).len(),
    decreases entries.len(),
{
    assert(entries.take(k + 1).drop_last() =~= entries.take(k));
    if k + 1 < entries.len() {
        lemma_scene_rows_prefix(old, entries.drop_last(), k);
        assert(entries.drop_last().take(k + 1) =~= entries.take(k + 1));
        assert(entries.drop_last().take(k) =~= entries.take(k));
    } else {
        assert(entries.take(k + 1) =~= entries);
    }
}

/// Whether the last earlier object named `name` was expanded (true when
/// there is none).
fn expansion_of(objs: &Vec<SceneObject>, name: &Vec<char>) -> (b: bool)
    ensures
        b == spec_expansion(objs@, name@),
{
    let mut k: usize = objs.len();
    assert(objs@.take(objs@.len() as int) =~= objs@);
    while k > 0
        invariant
            k <= objs@.len(),
            spec_expansion(objs@, name@) == spec_expansion(objs@.take(k as int), name@),
        decreases k,
    {
        let nm = chars_of(objs[k - 1].name.as_str());
        assert(objs@.take(k as int).drop_last() =~= objs@.take(k - 1));
        if chars_equal(&nm, name) {
            return objs[k - 1].expanded;
        }
        k = k - 1;
    }
    true
}

/// Whether `key` is among `seen`.
fn seen_contains(seen: &Vec<Vec<char>>, key: &Vec<char>) -> (b: bool)
    ensures
        b == views(seen@).contains(key@),
{
    let mut i: usize = 0;
    while i < seen.len()
        invariant
            i <= seen@.len(),
            forall|j: int| 0 <= j < i ==> seen@[j]@ != key@,
        decreases seen@.len() - i,
    {
        if chars_equal(&seen[i], key) {
            assert(views(seen@)[i as int] == key@);
            return true;
        }
        i = i + 1;
    }
    assert forall|j: int| 0 <= j < views(seen@).len() implies views(seen@)[j] != key@ by {
        assert(views(seen@)[j] == seen@[j]@);
    }
    false
}

/// The scene explorer's rows and selection.
pub struct SceneHierarchy {
    pub objects: Vec<SceneObject>,
    pub selected: Option<SceneObjectId>,
    pub selected_prim_path: Option<String>,
    pub next_id: usize,
}

impl SceneHierarchy {
    /// An empty hierarchy.
    pub fn new() -> (h: Self)
        ensures
            h.objects@.len() == 0,
            h.selected is None,
            h.selected_prim_path is None,
            h.next_id == 0,
    {
        SceneHierarchy { objects: Vec::new(), selected: None, selected_prim_path: None, next_id: 0 }
    }

    /// Appends an object showing the given row under the next id.
    fn push_object(
        &mut self,
        name: String,
        icon: &'static str,
        depth: usize,
        has_children: bool,
        expanded: bool,
        node_id: NodeId,
        prim_path: Option<String>,
    )
        requires
            old(self).next_id < usize::MAX,
        ensures
            final(self).next_id == old(self).next_id + 1,
            extends_with(
                old(self).objects@,
                final(self).objects@,
                seq![
                    (
                        name@,
                        icon@,
                        depth,
                        has_children,
                        expanded,
                        node_id,
                        match prim_path {
                            Some(p) => Some(p@),
                            None => None,
                        },
                    ),
                ],
                old(self).next_id as int,
            ),
            final(self).selected == old(self).selected,
            final(self).selected_prim_path == old(self).selected_prim_path,
    {
        let id = SceneObjectId(self.next_id);
        self.next_id = self.next_id + 1;
        let ghost o0 = self.objects@;
        self.objects.push(SceneObject { id, name, icon, depth, has_children, expanded, node_id, prim_path });
        assert(self.objects@.take(o0.len() as int) =~= o0);
        assert(self.objects@[o0.len() as int] == self.objects@.last());
    }

    /// Appends the rows of one prim.
    fn push_prim(&mut self, old_objs: &Vec<SceneObject>, node_id: NodeId, path: &String, seen: &mut Vec<Vec<char>>)
        requires
            old(self).next_id + prim_rows(old_objs@, node_id, path@, views(old(seen)@)).0.len() <= usize::MAX,
        ensures
            final(self).next_id == old(self).next_id + prim_rows(old_objs@, node_id, path@, views(old(seen)@)).0.len(),
            extends_with(
                old(self).objects@,
                final(self).objects@,
                prim_rows(old_objs@, node_id, path@, views(old(seen)@)).0,
                old(self).next_id as int,
            ),
            views(final(seen)@) == prim_rows(old_objs@, node_id, path@, views(old(seen)@)).1,
            final(self).selected == old(self).selected,
            final(self).selected_prim_path == old(self).selected_prim_path,
    {
        let ghost seen0 = views(seen@);
        let ghost objs0 = self.objects@;
        let ghost id0 = self.next_id as int;
        let segs = segments_of(path.as_str());
        let ghost sv = views(segs@);
        let n = segs.len();
        let ghost total = prim_rows(old_objs@, node_id, path@, seen0).0.len();
        let mut key: Vec<char> = segs[0].clone();
        let mut d: usize = 1;
        proof {
            lemma_extends_refl(objs0, id0);
            assert(sv[0] == segs@[0]@);
            assert(sv.take(1) =~= seq![sv[0]]);
            if n >= 2 {
                lemma_parent_rows_grow(old_objs@, node_id, sv, seen0, 1, (n - 1) as nat);
            }
        }
        while d < n - 1
            invariant
                1 <= d,
                n == segs@.len(),
                n >= 1,
                d <= n - 1 || d == 1,
                sv == views(segs@),
                sv == path_segments(path@),
                key@ == join_slash(sv.take(d as int)),
                total == prim_rows(old_objs@, node_id, path@, seen0).0.len(),
                id0 + total <= usize::MAX,
                ({
                    let pr = parent_rows(old_objs@, node_id, sv, seen0, d as nat);
                    &&& extends_with(objs0, self.objects@, pr.0, id0)
                    &&& views(seen@) == pr.1
                    &&& self.next_id == id0 + pr.0.len()
                }),
                self.selected == old(self).selected,
                self.selected_prim_path == old(self).selected_prim_path,
            decreases n - 1 - d,
        {
            let ghost prev = parent_rows(old_objs@, node_id, sv, seen0, d as nat);
            key.push('/');
            let seg = &segs[d];
            let mut j: usize = 0;
            let ghost k0 = key@;
            while j < seg.len()
                invariant
                    j <= seg@.len(),
                    key@ == k0 + seg@.take(j as int),
                decreases seg@.len() - j,
            {
                key.push(seg[j]);
                j = j + 1;
                assert(key@ =~= k0 + seg@.take(j as int));
            }
            proof {
                assert(seg@.take(j as int) =~= seg@);
                assert(sv.take(d + 1).drop_last() =~= sv.take(d as int));
                assert(sv.take(d + 1).last() == sv[d as int]);
                assert(sv[d as int] == segs@[d as int]@);
                assert(key@ == join_slash(sv.take(d + 1)));
            }
            if !seen_contains(seen, &key) {
                proof {
                    lemma_parent_rows_grow(old_objs@, node_id, sv, seen0, (d + 1) as nat, (n - 1) as nat);
                }
                let seg_str = string_from_chars(seg);
                let exp = expansion_of(old_objs, seg);
                let icon = prim_icon(seg_str.as_str(), true);
                let ghost o1 = self.objects@;
                let ghost s1 = views(seen@);
                self.push_object(seg_str, icon, d, true, exp, node_id, None);
                proof {
                    lemma_extends_trans(objs0, o1, self.objects@, prev.0, seq![parent_row(old_objs@, node_id, sv[d as int], d as int)], id0);
                }
                seen.push(key.clone());
                assert(views(seen@) =~= s1.push(key@));
            }
            d = d + 1;
        }
        let ghost pr = parent_rows(old_objs@, node_id, sv, seen0, (n - 1) as nat);
        proof {
            assert(parent_rows(old_objs@, node_id, sv, seen0, d as nat) == pr);
        }
        let last = &segs[n - 1];
        let leaf_name = string_from_chars(last);
        let icon = prim_icon(leaf_name.as_str(), false);
        let depth: usize = if n - 1 >= 1 { n - 1 } else { 1 };
        let path_copy = string_from_chars(&chars_of(path.as_str()));
        let ghost o1 = self.objects@;
        proof {
            assert(sv[n - 1] == segs@[n - 1]@);
            assert(sv.last() == sv[n - 1]);
        }
        self.push_object(leaf_name, icon, depth, false, true, node_id, Some(path_copy));
        proof {
            lemma_extends_trans(objs0, o1, self.objects@, pr.0, seq![leaf_row(node_id, path@)], id0);
        }
    }

    /// Appends the rows of one evaluated generator.
    fn push_entry<M>(&mut self, old_objs: &Vec<SceneObject>, e: &(NodeId, String, EvalResult<M>))
        requires
            old(self).next_id + entry_rows(old_objs@, *e).len() <= usize::MAX,
        ensures
            final(self).next_id == old(self).next_id + entry_rows(old_objs@, *e).len(),
            extends_with(old(self).objects@, final(self).objects@, entry_rows(old_objs@, *e), old(self).next_id as int),
            final(self).selected == old(self).selected,
            final(self).selected_prim_path == old(self).selected_prim_path,
    {
        let ghost objs0 = self.objects@;
        let ghost id0 = self.next_id as int;
        let node_id = e.0;
        let name = string_from_chars(&chars_of(e.1.as_str()));
        match &e.2 {
            EvalResult::Single(_) => {
                self.push_object(name, "🔹", 0, false, true, node_id, None);
            },
            EvalResult::Named(prims) => {
                let ghost paths = prim_paths(prims@);
                let ghost total = named_rows(old_objs@, node_id, paths, prims@.len()).0.len();
                let name_chars = chars_of(e.1.as_str());
                let expanded = expansion_of(old_objs, &name_chars);
                self.push_object(name, "📂", 0, prims.len() > 0, expanded, node_id, None);
                let ghost objs1 = self.objects@;
                let ghost id1 = self.next_id as int;
                let ghost head = seq![(e.1@, "📂"@, 0usize, prims@.len() > 0, spec_expansion(old_objs@, e.1@), node_id, None::<Seq<char>>)];
                let mut seen: Vec<Vec<char>> = Vec::new();
                let mut k: usize = 0;
                proof {
                    lemma_extends_refl(objs1, id1);
                    assert(views(seen@) =~= seq![]);
                    lemma_named_rows_grow(old_objs@, node_id, paths, 0, prims@.len());
                }
                while k < prims.len()
                    invariant
                        k <= prims@.len(),
                        paths == prim_paths(prims@),
                        id1 == id0 + 1,
                        extends_with(objs0, objs1, head, id0),
                        total == named_rows(old_objs@, node_id, paths, prims@.len()).0.len(),
                        id1 + total <= usize::MAX,
                        ({
                            let nr = named_rows(old_objs@, node_id, paths, k as nat);
                            &&& extends_with(objs1, self.objects@, nr.0, id1)
                            &&& views(seen@) == nr.1
                            &&& self.next_id == id1 + nr.0.len()
                        }),
                        self.selected == old(self).selected,
                        self.selected_prim_path == old(self).selected_prim_path,
                    decreases prims@.len() - k,
                {
                    let ghost nr = named_rows(old_objs@, node_id, paths, k as nat);
                    let ghost o2 = self.objects@;
                    proof {
                        lemma_named_rows_grow(old_objs@, node_id, paths, (k + 1) as nat, prims@.len());
                        assert(paths[k as int] == prims@[k as int].path@);
                    }
                    self.push_prim(old_objs, node_id, &prims[k].path, &mut seen);
                    proof {
                        lemma_extends_trans(objs1, o2, self.objects@, nr.0,
                            prim_rows(old_objs@, node_id, paths[k as int], nr.1).0, id1);
                    }
                    k = k + 1;
                }
                proof {
                    lemma_extends_trans(objs0, objs1, self.objects@, head,
                        named_rows(old_objs@, node_id, paths, prims@.len()).0, id0);
                }
            },
        }
    }

    /// Rebuilds the rows from the evaluated generators, keeping whether each
    /// name was expanded before. Ids keep counting up from earlier rebuilds.
    pub fn rebuild<M>(&mut self, entries: Vec<(NodeId, String, EvalResult<M>)>)
        requires
            old(self).next_id + scene_rows(old(self).objects@, entries@).len() <= usize::MAX,
        ensures
            final(self).next_id == old(self).next_id + scene_rows(old(self).objects@, entries@).len(),
            final(self).objects@.len() == scene_rows(old(self).objects@, entries@).len(),
            forall|i: int|
                0 <= i < final(self).objects@.len() ==> row_view(#[trigger] final(self).objects@[i])
                    == scene_rows(old(self).objects@, entries@)[i] && final(self).objects@[i].id == SceneObjectId(
                    (old(self).next_id + i) as usize,
                ),
            final(self).selected == old(self).selected,
            final(self).selected_prim_path == old(self).selected_prim_path,
    {
        let mut old_objs: Vec<SceneObject> = Vec::new();
        std::mem::swap(&mut old_objs, &mut self.objects);
        let ghost id0 = self.next_id as int;
        let ghost total = scene_rows(old_objs@, entries@).len();
        let mut k: usize = 0;
        proof {
            lemma_extends_refl(self.objects@, id0);
            assert(entries@.take(0) =~= seq![]);
            assert(self.objects@ =~= seq![]);
        }
        while k < entries.len()
            invariant
                k <= entries@.len(),
                old_objs@ == old(self).objects@,
                id0 == old(self).next_id,
                total == scene_rows(old_objs@, entries@).len(),
                id0 + total <= usize::MAX,
                extends_with(seq![], self.objects@, scene_rows(old_objs@, entries@.take(k as int)), id0),
                self.next_id == id0 + scene_rows(old_objs@, entries@.take(k as int)).len(),
                self.selected == old(self).selected,
                self.selected_prim_path == old(self).selected_prim_path,
            decreases entries@.len() - k,
        {
            let ghost o1 = self.objects@;
            proof {
                lemma_scene_rows_prefix(old_objs@, entries@, k as int);
            }
            self.push_entry(&old_objs, &entries[k]);
            proof {
                lemma_extends_trans(seq![], o1, self.objects@, scene_rows(old_objs@, entries@.take(k as int)),
                    entry_rows(old_objs@, entries@[k as int]), id0);
            }
            k = k + 1;
        }
        proof {
            assert(entries@.take(k as int) =~= entries@);
            let rows = scene_rows(old_objs@, entries@);
            assert forall|i: int| 0 <= i < self.objects@.len() implies row_view(#[trigger] self.objects@[i])
                == rows[i] && self.objects@[i].id == SceneObjectId((id0 + i) as usize) by {
                assert(self.objects@[0 + i] == self.objects@[i]);
            }
        }
    }
}

/// The path of the ancestor at depth `d` of a prim with segments `segs`:
/// its segments up to `d`, joined by slashes.
pub open spec fn prefix_key(segs: Seq<Seq<char>>, d: int) -> Seq<char> {
    join_slash(segs.take(d + 1))
}

/// The distinct paths of the ancestors (depth one or more, the prim itself
/// excluded) of the first `k` prims.
pub open spec fn ancestor_paths(paths: Seq<Seq<char>>, k: nat) -> Set<Seq<char>> {
    Set::new(
        |key: Seq<char>|
            exists|i: int, d: int|
                0 <= i < k && 1 <= d && d + 1 < path_segments(paths[i]).len() && key == #[trigger] prefix_key(
                    path_segments(paths[i]),
                    d,
                ),
    )
}

proof fn lemma_parent_rows_keys(
    old: Seq<SceneObject>,
    node_id: NodeId,
    segs: Seq<Seq<char>>,
    seen: Seq<Seq<char>>,
    upto: nat,
)
    requires
        seen.no_duplicates(),
    ensures
        parent_rows(old, node_id, segs, seen, upto).1.no_duplicates(),
        parent_rows(old, node_id, segs, seen, upto).1.len() == seen.len() + parent_rows(old, node_id, segs, seen, upto).0.len(),
        forall|key: Seq<char>|
            #[trigger] parent_rows(old, node_id, segs, seen, upto).1.contains(key) <==> (seen.contains(key) || exists|d: int|
                1 <= d < upto && key == #[trigger] prefix_key(segs, d)),
    decreases upto,
{
    if upto > 1 {
        let um = (upto - 1) as nat;
        lemma_parent_rows_keys(old, node_id, segs, seen, um);
        let prev = parent_rows(old, node_id, segs, seen, um);
        let r = parent_rows(old, node_id, segs, seen, upto);
        let d0 = upto - 1;
        let key = prefix_key(segs, d0);
        if prev.1.contains(key) {
            assert(r == prev);
        } else {
            assert(r.1 == prev.1.push(key));
            assert(r.1.no_duplicates()) by {
                assert forall|a: int, b: int| 0 <= a < b < r.1.len() implies r.1[a] != r.1[b] by {
                    if b == r.1.len() - 1 {
                        assert(r.1[a] == prev.1[a]);
                    } else {
                        assert(r.1[a] == prev.1[a] && r.1[b] == prev.1[b]);
                    }
                }
            }
        }
        assert forall|k2: Seq<char>| #[trigger] r.1.contains(k2) <==> (seen.contains(k2) || exists|d: int|
            1 <= d < upto && k2 == #[trigger] prefix_key(segs, d)) by {
            if !prev.1.contains(key) {
                if r.1.contains(k2) {
                    let a = choose|a: int| 0 <= a < r.1.len() && r.1[a] == k2;
                    if a < prev.1.len() {
                        assert(prev.1[a] == k2);
                        assert(prev.1.contains(k2));
                    } else {
                        assert(k2 == prefix_key(segs, d0));
                    }
                }
                if prev.1.contains(k2) {
                    let a = choose|a: int| 0 <= a < prev.1.len() && prev.1[a] == k2;
                    assert(r.1[a] == k2);
                }
                if k2 == key {
                    assert(r.1[r.1.len() - 1] == k2);
                }
            }
            if exists|d: int| 1 <= d < upto && k2 == #[trigger] prefix_key(segs, d) {
                let d = choose|d: int| 1 <= d < upto && k2 == #[trigger] prefix_key(segs, d);
                if d < d0 {
                    assert(prev.1.contains(k2));
                }
            }
        }
    }
}

proof fn lemma_named_rows_keys(old: Seq<SceneObject>, node_id: NodeId, paths: Seq<Seq<char>>, k: nat)
    requires
        k <= paths.len(),
    ensures
        named_rows(old, node_id, paths, k).1.no_duplicates(),
        named_rows(old, node_id, paths, k).0.len() == k + named_rows(old, node_id, paths, k).1.len(),
        forall|key: Seq<char>|
            #[trigger] named_rows(old, node_id, paths, k).1.contains(key) <==> ancestor_paths(paths, k).contains(key),
    decreases k,
{
    if k == 0 {
        assert forall|key: Seq<char>| !#[trigger] ancestor_paths(paths, 0).contains(key) by {}
    } else {
        let km = (k - 1) as nat;
        lemma_named_rows_keys(old, node_id, paths, km);
        let prev = named_rows(old, node_id, paths, km);
        let path = paths[km as int];
        let segs = path_segments(path);
        lemma_split_nonempty(trim_slashes(path));
        let upto = (segs.len() - 1) as nat;
        lemma_parent_rows_keys(old, node_id, segs, prev.1, upto);
        let p = parent_rows(old, node_id, segs, prev.1, upto);
        let r = named_rows(old, node_id, paths, k);
        assert(r.1 == p.1);
        assert(r.0.len() == prev.0.len() + p.0.len() + 1);
        assert forall|key: Seq<char>| #[trigger] r.1.contains(key) <==> ancestor_paths(paths, k).contains(key) by {
            if r.1.contains(key) {
                if prev.1.contains(key) {
                    assert(ancestor_paths(paths, km).contains(key));
                    let (i, d) = choose|i: int, d: int|
                        0 <= i < km && 1 <= d && d + 1 < path_segments(paths[i]).len() && key == #[trigger] prefix_key(
                            path_segments(paths[i]),
                            d,
                        );
                    assert(ancestor_paths(paths, k).contains(key));
                } else {
                    let d = choose|d: int| 1 <= d < upto && key == #[trigger] prefix_key(segs, d);
                    assert(0 <= km < k && 1 <= d && d + 1 < path_segments(paths[km as int]).len() && key == prefix_key(
                        path_segments(paths[km as int]),
                        d,
                    ));
                    assert(ancestor_paths(paths, k).contains(key));
                }
            }
            if ancestor_paths(paths, k).contains(key) {
                let (i, d) = choose|i: int, d: int|
                    0 <= i < k && 1 <= d && d + 1 < path_segments(paths[i]).len() && key == #[trigger] prefix_key(
                        path_segments(paths[i]),
                        d,
                    );
                if i < km {
                    assert(ancestor_paths(paths, km).contains(key));
                    assert(prev.1.contains(key));
                } else {
                    assert(1 <= d < upto && key == prefix_key(segs, d));
                }
            }
        }
    }
}

/// A stage's prims get one row each, plus one row per distinct ancestor
/// path: an ancestor is listed once however many prims lie under it, and
/// ancestors with the same name under different parents (`/W/A/Geo` and
/// `/W/B/Geo`) are listed apart.
pub proof fn lemma_one_row_per_ancestor_path(old: Seq<SceneObject>, node_id: NodeId, paths: Seq<Seq<char>>, k: nat)
    requires
        k <= paths.len(),
    ensures
        ancestor_paths(paths, k).finite(),
        named_rows(old, node_id, paths, k).0.len() == k + ancestor_paths(paths, k).len(),
{
    broadcast use vstd::seq_lib::seq_to_set_is_finite;

    lemma_named_rows_keys(old, node_id, paths, k);
    let r = named_rows(old, node_id, paths, k);
    assert(r.1.to_set() =~= ancestor_paths(paths, k));
    r.1.unique_seq_to_set();
}

/// Row `r` lists the ancestor at depth `d` of a prim with segments `segs`:
/// it shows that segment's name at that depth, has children and no path.
pub open spec fn shows_ancestor(r: Row, segs: Seq<Seq<char>>, d: int) -> bool {
    &&& 1 <= d && d + 1 < segs.len()
    &&& r.0 == segs[d]
    &&& r.2 == d as usize
    &&& r.3
    &&& r.6 is None
}

/// Row `r` lists the prim at `path` itself: its last segment's name, at
/// the depth of its last segment (at least one), without children, with
/// its path.
pub open spec fn shows_prim(r: Row, path: Seq<char>) -> bool {
    let segs = path_segments(path);
    &&& r.0 == segs.last()
    &&& r.2 == (if segs.len() >= 2 { segs.len() - 1 } else { 1 }) as usize
    &&& !r.3
    &&& r.6 == Some(path)
}

/// Row `r` lists an ancestor at a depth in `1 .. upto`.
spec fn ancestor_below(r: Row, segs: Seq<Seq<char>>, upto: nat) -> bool {
    exists|d: int| 1 <= d < upto && #[trigger] shows_ancestor(r, segs, d)
}

/// Every row in `rows` lists an ancestor at a depth in `1 .. upto`.
spec fn rows_are_ancestors(rows: Seq<Row>, segs: Seq<Seq<char>>, upto: nat) -> bool {
    forall|a: int| 0 <= a < rows.len() ==> #[trigger] ancestor_below(rows[a], segs, upto)
}

proof fn lemma_parent_rows_show(old: Seq<SceneObject>, node_id: NodeId, segs: Seq<Seq<char>>, seen: Seq<Seq<char>>, upto: nat)
    requires
        upto < segs.len(),
    ensures
        rows_are_ancestors(parent_rows(old, node_id, segs, seen, upto).0, segs, upto),
    decreases upto,
{
    if upto > 1 {
        let um = (upto - 1) as nat;
        lemma_parent_rows_show(old, node_id, segs, seen, um);
        let prev = parent_rows(old, node_id, segs, seen, um).0;
        let rows = parent_rows(old, node_id, segs, seen, upto).0;
        let d0 = upto - 1;
        if parent_rows(old, node_id, segs, seen, um).1.contains(prefix_key(segs, d0)) {
            assert(rows == prev);
        } else {
            assert(rows == prev.push(parent_row(old, node_id, segs[d0], d0)));
        }
        assert forall|a: int| 0 <= a < rows.len() implies #[trigger] ancestor_below(rows[a], segs, upto) by {
            if a < prev.len() {
                assert(rows[a] == prev[a]);
                assert(ancestor_below(prev[a], segs, um));
                let d = choose|d: int| 1 <= d < um && #[trigger] shows_ancestor(prev[a], segs, d);
                assert(shows_ancestor(rows[a], segs, d));
            } else {
                assert(rows[a] == parent_row(old, node_id, segs[d0], d0));
                assert(shows_ancestor(rows[a], segs, d0));
            }
        }
    }
}

/// Each row listed for a stage's first `k` prims is either a prim itself
/// (its last segment, at its depth, with its path) or one of their
/// ancestors (the segment at the row's depth of some prim's path).
pub proof fn lemma_rows_show_path_segments(old: Seq<SceneObject>, node_id: NodeId, paths: Seq<Seq<char>>, k: nat)
    requires
        k <= paths.len(),
    ensures
        forall|a: int|
            #![trigger named_rows(old, node_id, paths, k).0[a]]
            0 <= a < named_rows(old, node_id, paths, k).0.len() ==> exists|i: int|
                #![trigger paths[i]]
                0 <= i < k && (shows_prim(named_rows(old, node_id, paths, k).0[a], paths[i]) || exists|d: int|
                    #[trigger] shows_ancestor(named_rows(old, node_id, paths, k).0[a], path_segments(paths[i]), d)),
    decreases k,
{
    if k > 0 {
        let km = (k - 1) as nat;
        lemma_rows_show_path_segments(old, node_id, paths, km);
        let prev = named_rows(old, node_id, paths, km);
        let i0 = km as int;
        let path = paths[i0];
        let segs = path_segments(path);
        lemma_split_nonempty(trim_slashes(path));
        let upto = (segs.len() - 1) as nat;
        lemma_parent_rows_show(old, node_id, segs, prev.1, upto);
        let p = parent_rows(old, node_id, segs, prev.1, upto);
        let r = named_rows(old, node_id, paths, k);
        assert(r.0 == prev.0 + p.0.push(leaf_row(node_id, path)));
        assert forall|a: int| #![trigger r.0[a]] 0 <= a < r.0.len() implies exists|i: int|
            #![trigger paths[i]]
            0 <= i < k && (shows_prim(r.0[a], paths[i]) || exists|d: int| #[trigger] shows_ancestor(r.0[a], path_segments(paths[i]), d)) by {
            if a < prev.0.len() {
                assert(r.0[a] == prev.0[a]);
                let i = choose|i: int|
                    #![trigger paths[i]]
                    0 <= i < km && (shows_prim(prev.0[a], paths[i]) || exists|d: int|
                        #[trigger] shows_ancestor(prev.0[a], path_segments(paths[i]), d));
                assert(0 <= i < k && paths[i] == paths[i]);
            } else if a < prev.0.len() + p.0.len() {
                let b = a - prev.0.len();
                assert(r.0[a] == p.0[b]);
                assert(ancestor_below(p.0[b], segs, upto));
                let d = choose|d: int| 1 <= d < upto && #[trigger] shows_ancestor(p.0[b], segs, d);
                assert(shows_ancestor(r.0[a], path_segments(paths[i0]), d));
            } else {
                assert(r.0[a] == leaf_row(node_id, path));
                assert(shows_prim(r.0[a], paths[i0]));
            }
        }
    }
}

// ── Drawing the explorer ────────────────────────────────────────────────────

/// The rows drawn among the first `k` objects, and the depth of the
/// collapsed row whose subtree is being skipped: rows deeper than a
/// collapsed row with children are hidden until a row at its depth or
/// above.
pub open spec fn shown_rows(objs: Seq<SceneObject>, k: nat) -> (Seq<nat>, Option<usize>)
    decreases k,
{
    if k == 0 {
        (seq![], None)
    } else {
        let prev = shown_rows(objs, (k - 1) as nat);
        let o = objs[k - 1];
        if prev.1 matches Some(cd) && o.depth > cd {
            prev
        } else {
            (prev.0.push((k - 1) as nat), if o.has_children && !o.expanded { Some(o.depth) } else { None })
        }
    }
}

/// Row `j` is collapsed and has children, and every row after it up to `i`
/// lies deeper: row `i` is inside the collapsed subtree of row `j`.
pub open spec fn hidden_under(objs: Seq<SceneObject>, j: int, i: int) -> bool {
    &&& 0 <= j < i
    &&& objs[j].has_children && !objs[j].expanded
    &&& forall|m: int| j < m <= i ==> objs[m].depth > objs[j].depth
}

/// Row `i` lies inside the subtree of some collapsed row with children.
pub open spec fn inside_collapsed(objs: Seq<SceneObject>, i: int) -> bool {
    exists|j: int| #[trigger] hidden_under(objs, j, i)
}

/// Row `j` is collapsed with children and every row after it before `k` is
/// deeper: its subtree is still open at `k`.
spec fn open_at(objs: Seq<SceneObject>, j: int, k: int) -> bool {
    &&& 0 <= j < k
    &&& objs[j].has_children && !objs[j].expanded
    &&& forall|m: int| j < m < k ==> objs[m].depth > objs[j].depth
}

spec fn shown_inv(objs: Seq<SceneObject>, k: nat) -> bool {
    let r = shown_rows(objs, k);
    &&& forall|a: int| 0 <= a < r.0.len() ==> r.0[a] < k
    &&& forall|a: int, b: int| 0 <= a < b < r.0.len() ==> r.0[a] < r.0[b]
    &&& forall|i: int| 0 <= i < k ==> (r.0.contains(i as nat) <==> !#[trigger] inside_collapsed(objs, i))
    &&& match r.1 {
        None => forall|j: int| !#[trigger] open_at(objs, j, k as int),
        Some(cd) => (exists|j: int| #[trigger] open_at(objs, j, k as int) && objs[j].depth == cd) && forall|j: int|
            #[trigger] open_at(objs, j, k as int) ==> objs[j].depth >= cd,
    }
}

proof fn lemma_shown_inv(objs: Seq<SceneObject>, k: nat)
    requires
        k <= objs.len(),
    ensures
        shown_inv(objs, k),
    decreases k,
{
    if k > 0 {
        let km = (k - 1) as nat;
        lemma_shown_inv(objs, km);
        let prev = shown_rows(objs, km);
        let r = shown_rows(objs, k);
        let x = km as int;
        let o = objs[x];
        // Row `x` is hidden exactly when an open collapsed row above it is shallower.
        assert(inside_collapsed(objs, x) <==> (exists|j: int|
            #[trigger] open_at(objs, j, x) && o.depth > objs[j].depth)) by {
            if exists|j: int| #[trigger] hidden_under(objs, j, x) {
                let j = choose|j: int| #[trigger] hidden_under(objs, j, x);
                assert(open_at(objs, j, x));
            }
            if exists|j: int| #[trigger] open_at(objs, j, x) && o.depth > objs[j].depth {
                let j = choose|j: int| #[trigger] open_at(objs, j, x) && o.depth > objs[j].depth;
                assert(hidden_under(objs, j, x));
            }
        }
        let hide = prev.1 matches Some(cd) && o.depth > cd;
        if hide {
            assert(r == prev);
        } else {
            assert(r.0 == prev.0.push(km));
        }
        // Earlier rows keep their answer.
        assert forall|i: int| 0 <= i < k implies (r.0.contains(i as nat) <==> !#[trigger] inside_collapsed(objs, i)) by {
            if i < x {
                if !hide {
                    if r.0.contains(i as nat) {
                        let a = choose|a: int| 0 <= a < r.0.len() && r.0[a] == i as nat;
                        if a < prev.0.len() {
                            assert(prev.0.contains(i as nat));
                        }
                    }
                    if prev.0.contains(i as nat) {
                        let a = choose|a: int| 0 <= a < prev.0.len() && prev.0[a] == i as nat;
                        assert(r.0[a] == i as nat);
                    }
                }
            } else {
                assert(i == x);
                if hide {
                    if r.0.contains(i as nat) {
                        let a = choose|a: int| 0 <= a < r.0.len() && r.0[a] == i as nat;
                        assert(r.0[a] < km);
                    }
                    let cd = prev.1->0;
                    let j = choose|j: int| #[trigger] open_at(objs, j, x) && objs[j].depth == cd;
                    assert(open_at(objs, j, x) && o.depth > objs[j].depth);
                } else {
                    assert(r.0[r.0.len() - 1] == km);
                    assert(forall|j: int| #[trigger] open_at(objs, j, x) ==> !(o.depth > objs[j].depth));
                }
            }
        }
        // The state after row `x`.
        if hide {
            let cd = prev.1->0;
            let j0 = choose|j: int| #[trigger] open_at(objs, j, x) && objs[j].depth == cd;
            assert(open_at(objs, j0, k as int));
            assert forall|j: int| #[trigger] open_at(objs, j, k as int) implies objs[j].depth >= cd by {
                if j < x {
                    assert(open_at(objs, j, x));
                }
            }
        } else {
            assert forall|j: int| #[trigger] open_at(objs, j, k as int) implies j == x by {
                if j < x {
                    assert(open_at(objs, j, x));
                    assert(objs[x].depth > objs[j].depth);
                }
            }
            if o.has_children && !o.expanded {
                assert(open_at(objs, x, k as int));
            }
        }
    }
}

/// The explorer draws a row exactly when it does not lie inside the
/// subtree of a collapsed row with children (every row after that row up to
/// it is deeper), and draws the rows in their order: a collapsed row hides
/// its descendants and nothing at its own depth or above.
pub proof fn lemma_visible_rows(objs: Seq<SceneObject>)
    ensures
        forall|i: int|
            0 <= i < objs.len() ==> (shown_rows(objs, objs.len()).0.contains(i as nat) <==> !#[trigger] inside_collapsed(objs, i)),
        forall|a: int|
            0 <= a < shown_rows(objs, objs.len()).0.len() ==> shown_rows(objs, objs.len()).0[a] < objs.len(),
        forall|a: int, b: int|
            0 <= a < b < shown_rows(objs, objs.len()).0.len() ==> shown_rows(objs, objs.len()).0[a] < shown_rows(
                objs,
                objs.len(),
            ).0[b],
{
    lemma_shown_inv(objs, objs.len());
}

/// The rows the explorer draws, in order.
pub fn visible_objects(objs: &Vec<SceneObject>) -> (rows: Vec<usize>)
    ensures
        rows@.map_values(|i: usize| i as nat) == shown_rows(objs@, objs@.len()).0,
{
    let mut rows: Vec<usize> = Vec::new();
    let mut collapsed: Option<usize> = None;
    let mut k: usize = 0;
    while k < objs.len()
        invariant
            k <= objs@.len(),
            rows@.map_values(|i: usize| i as nat) == shown_rows(objs@, k as nat).0,
            collapsed == shown_rows(objs@, k as nat).1,
        decreases objs@.len() - k,
    {
        let o = &objs[k];
        let skip = match collapsed {
            Some(cd) => o.depth > cd,
            None => false,
        };
        if !skip {
            let ghost r0 = rows@;
            rows.push(k);
            assert(rows@.map_values(|i: usize| i as nat) =~= r0.map_values(|i: usize| i as nat).push(k as nat));
            collapsed = if o.has_children && !o.expanded { Some(o.depth) } else { None };
        }
        k = k + 1;
    }
    rows
}

/// Index of the first row after `idx` at its depth or above, or the
/// number of rows.
pub open spec fn next_not_deeper(objs: Seq<SceneObject>, idx: int, from: int) -> int
    decreases objs.len() - from,
{
    if from >= objs.len() {
        objs.len() as int
    } else if objs[from].depth <= objs[idx].depth {
        from
    } else {
        next_not_deeper(objs, idx, from + 1)
    }
}

/// Row `idx` is the last of its siblings.
pub open spec fn last_sibling(objs: Seq<SceneObject>, idx: int) -> bool {
    let j = next_not_deeper(objs, idx, idx + 1);
    j >= objs.len() || objs[j].depth < objs[idx].depth
}

/// Whether row `idx` is the last of its siblings (it gets a corner rather
/// than a tee in the tree lines).
pub fn is_last_sibling(objs: &Vec<SceneObject>, idx: usize) -> (b: bool)
    requires
        idx < objs@.len(),
    ensures
        b == last_sibling(objs@, idx as int),
{
    let d = objs[idx].depth;
    let len = objs.len();
    let mut j: usize = idx + 1;
    while j < len
        invariant
            idx < j <= objs@.len(),
            len == objs@.len(),
            d == objs@[idx as int].depth,
            next_not_deeper(objs@, idx as int, idx + 1) == next_not_deeper(objs@, idx as int, j as int),
        decreases objs@.len() - j,
    {
        if objs[j].depth <= d {
            return objs[j].depth < d;
        }
        j = j + 1;
    }
    true
}

/// How many depths the tree lines track.
pub const TRACKED_DEPTHS: usize = 16;

/// For each tracked depth, whether the latest drawn row at that depth was
/// the last of its siblings, after drawing the first `n` of `rows`.
pub open spec fn last_at_depth(objs: Seq<SceneObject>, rows: Seq<usize>, n: nat) -> Seq<bool>
    decreases n,
{
    if n == 0 {
        Seq::new(TRACKED_DEPTHS as nat, |_d: int| false)
    } else {
        let prev = last_at_depth(objs, rows, (n - 1) as nat);
        let idx = rows[n - 1] as int;
        let d = objs[idx].depth;
        if d < TRACKED_DEPTHS {
            prev.update(d as int, last_sibling(objs, idx))
        } else {
            prev
        }
    }
}

/// The tree lines of the `n`-th drawn row (counting from 0): whether it is
/// the last of its siblings, and for each depth above it whether a
/// vertical line passes (a tracked depth whose latest row was not last).
pub open spec fn row_lines(objs: Seq<SceneObject>, rows: Seq<usize>, n: nat) -> (bool, Seq<bool>) {
    let idx = rows[n as int] as int;
    let state = last_at_depth(objs, rows, n + 1);
    (
        last_sibling(objs, idx),
        Seq::new(objs[idx].depth as nat, |d: int| d < TRACKED_DEPTHS && !state[d]),
    )
}

/// The tree lines of each drawn row.
pub fn tree_lines(objs: &Vec<SceneObject>, rows: &Vec<usize>) -> (lines: Vec<(bool, Vec<bool>)>)
    requires
        forall|i: int| 0 <= i < rows@.len() ==> #[trigger] rows@[i] < objs@.len(),
    ensures
        lines@.len() == rows@.len(),
        forall|i: int|
            0 <= i < rows@.len() ==> (#[trigger] lines@[i]).0 == row_lines(objs@, rows@, i as nat).0 && lines@[i].1@
                == row_lines(objs@, rows@, i as nat).1,
{
    let mut state: Vec<bool> = Vec::new();
    let mut z: usize = 0;
    while z < TRACKED_DEPTHS
        invariant
            z <= TRACKED_DEPTHS,
            state@ == Seq::new(z as nat, |_d: int| false),
        decreases TRACKED_DEPTHS - z,
    {
        state.push(false);
        z = z + 1;
        assert(state@ =~= Seq::new(z as nat, |_d: int| false));
    }
    let mut lines: Vec<(bool, Vec<bool>)> = Vec::new();
    let mut n: usize = 0;
    while n < rows.len()
        invariant
            n <= rows@.len(),
            forall|i: int| 0 <= i < rows@.len() ==> #[trigger] rows@[i] < objs@.len(),
            state@ == last_at_depth(objs@, rows@, n as nat),
            state@.len() == TRACKED_DEPTHS,
            lines@.len() == n,
            forall|i: int|
                0 <= i < n ==> (#[trigger] lines@[i]).0 == row_lines(objs@, rows@, i as nat).0 && lines@[i].1@
                    == row_lines(objs@, rows@, i as nat).1,
        decreases rows@.len() - n,
    {
        let idx = rows[n];
        let d = objs[idx].depth;
        let last = is_last_sibling(objs, idx);
        if d < TRACKED_DEPTHS {
            state.set(d, last);
        }
        assert(state@ == last_at_depth(objs@, rows@, (n + 1) as nat));
        let mut ls: Vec<bool> = Vec::new();
        let mut e: usize = 0;
        while e < d
            invariant
                e <= d,
                state@.len() == TRACKED_DEPTHS,
                ls@ == Seq::new(e as nat, |q: int| q < TRACKED_DEPTHS && !state@[q]),
            decreases d - e,
        {
            ls.push(e < TRACKED_DEPTHS && !state[e]);
            e = e + 1;
            assert(ls@ =~= Seq::new(e as nat, |q: int| q < TRACKED_DEPTHS && !state@[q]));
        }
        lines.push((last, ls));
        n = n + 1;
    }
    lines
}

impl SceneHierarchy {
    /// Clicking an expander flips whether the first row with id `id` is
    /// expanded.
    pub fn toggle_expanded(&mut self, id: SceneObjectId)
        ensures
            final(self).objects@.len() == old(self).objects@.len(),
            forall|i: int|
                0 <= i < old(self).objects@.len() ==> {
                    let o = old(self).objects@[i];
                    let first = o.id == id && forall|j: int| 0 <= j < i ==> (#[trigger] old(self).objects@[j]).id != id;
                    #[trigger] final(self).objects@[i] == if first {
                        SceneObject { expanded: !o.expanded, ..o }
                    } else {
                        o
                    }
                },
            final(self).selected == old(self).selected,
            final(self).selected_prim_path == old(self).selected_prim_path,
            final(self).next_id == old(self).next_id,
    {
        let mut k: usize = 0;
        while k < self.objects.len()
            invariant
                k <= self.objects@.len(),
                self.objects == old(self).objects,
                self.selected == old(self).selected,
                self.selected_prim_path == old(self).selected_prim_path,
                self.next_id == old(self).next_id,
                forall|j: int| 0 <= j < k ==> (#[trigger] self.objects@[j]).id != id,
            decreases self.objects@.len() - k,
        {
            if self.objects[k].id == id {
                let e = !self.objects[k].expanded;
                self.objects[k].expanded = e;
                return;
            }
            k = k + 1;
        }
    }

    /// Clicking a row selects it and its prim path.
    pub fn select(&mut self, id: SceneObjectId, prim_path: Option<String>)
        ensures
            final(self).selected == Some(id),
            final(self).selected_prim_path == prim_path,
            final(self).objects == old(self).objects,
            final(self).next_id == old(self).next_id,
    {
        self.selected = Some(id);
        self.selected_prim_path = prim_path;
    }
}

} // verus!
