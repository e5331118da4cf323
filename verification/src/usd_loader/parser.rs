//! Recursive-descent reader for USDA prim blocks: finds `Mesh` prims, their
//! point and face arrays, and the transform operations of enclosing prims.
//! Numeric values keep their literal text; turning them into coordinates and
//! matrices is left to the caller.

use vstd::prelude::*;
use crate::text::{str_contains, str_equal, seq_contains, string_from_chars, push_all, chars_of};
use super::lexer::{Token, Tok, toks_view};

verus! {

/// The literal text of a number read from a value slot; `None` where the slot
/// held no number token (such a slot reads as zero).
pub type NumSlot = Option<String>;

/// View of a number slot.
pub open spec fn slot_view(s: NumSlot) -> Option<Seq<char>> {
    match s {
        Some(t) => Some(t@),
        None => None,
    }
}

/// View of a list of number slots.
pub open spec fn slots_view(v: Seq<NumSlot>) -> Seq<Option<Seq<char>>> {
    v.map_values(|s: NumSlot| slot_view(s))
}

/// The transform operations authored on one prim (`xformOp:*` attributes).
#[derive(Debug, Clone)]
pub struct XformOps {
    /// `xformOp:translate` (three slots).
    pub translate: Option<Vec<NumSlot>>,
    /// `xformOp:scale` (three slots).
    pub scale: Option<Vec<NumSlot>>,
    /// `xformOp:orient` as (real, i, j, k) (four slots).
    pub orient: Option<Vec<NumSlot>>,
    /// `xformOp:rotateXYZ` in degrees (three slots).
    pub rotate_xyz: Option<Vec<NumSlot>>,
    /// `xformOp:transform`, row-major (sixteen slots).
    pub matrix: Option<Vec<NumSlot>>,
}

impl XformOps {
    /// No operation authored.
    pub fn none() -> (x: Self)
        ensures
            x.translate is None && x.scale is None && x.orient is None && x.rotate_xyz is None
                && x.matrix is None,
            x@ == no_ops(),
    {
        XformOps { translate: None, scale: None, orient: None, rotate_xyz: None, matrix: None }
    }
}

/// A `Mesh` prim read from USDA text.
#[derive(Debug, Clone)]
pub struct MeshPrim {
    /// Absolute prim path, such as `/World/Geom/Cube`.
    pub path: String,
    /// Transform operations of the enclosing prims whose transforms apply,
    /// outermost first.
    pub ancestors: Vec<XformOps>,
    /// Transform operations authored on the mesh prim itself.
    pub local: XformOps,
    /// `points`: three slots per point.
    pub points: Vec<Vec<NumSlot>>,
    /// `faceVertexCounts`, as number literals.
    pub face_vertex_counts: Vec<String>,
    /// `faceVertexIndices`, as number literals.
    pub face_vertex_indices: Vec<String>,
}

/// The slots of one operation, as literals.
pub type SlotsView = Seq<Option<Seq<char>>>;

/// What a set of transform operations holds.
pub struct XformOpsView {
    pub translate: Option<SlotsView>,
    pub scale: Option<SlotsView>,
    pub orient: Option<SlotsView>,
    pub rotate_xyz: Option<SlotsView>,
    pub matrix: Option<SlotsView>,
}

/// View of an optional operation.
pub open spec fn op_view(v: Option<Vec<NumSlot>>) -> Option<SlotsView> {
    match v {
        Some(s) => Some(slots_view(s@)),
        None => None,
    }
}

impl View for XformOps {
    type V = XformOpsView;

    open spec fn view(&self) -> XformOpsView {
        XformOpsView {
            translate: op_view(self.translate),
            scale: op_view(self.scale),
            orient: op_view(self.orient),
            rotate_xyz: op_view(self.rotate_xyz),
            matrix: op_view(self.matrix),
        }
    }
}

/// No operation authored.
pub open spec fn no_ops() -> XformOpsView {
    XformOpsView { translate: None, scale: None, orient: None, rotate_xyz: None, matrix: None }
}

/// View of a chain of enclosing transform operations.
pub open spec fn chain_view(v: Seq<XformOps>) -> Seq<XformOpsView> {
    v.map_values(|o: XformOps| o@)
}

/// What a mesh prim read from USDA text holds.
pub struct MeshPrimView {
    pub path: Seq<char>,
    pub ancestors: Seq<XformOpsView>,
    pub local: XformOpsView,
    pub points: Seq<SlotsView>,
    pub face_vertex_counts: Seq<Seq<char>>,
    pub face_vertex_indices: Seq<Seq<char>>,
}

impl View for MeshPrim {
    type V = MeshPrimView;

    open spec fn view(&self) -> MeshPrimView {
        MeshPrimView {
            path: self.path@,
            ancestors: chain_view(self.ancestors@),
            local: self.local@,
            points: points_view(self.points@),
            face_vertex_counts: strings_view(self.face_vertex_counts@),
            face_vertex_indices: strings_view(self.face_vertex_indices@),
        }
    }
}

/// View of a list of meshes.
pub open spec fn meshes_view(v: Seq<MeshPrim>) -> Seq<MeshPrimView> {
    v.map_values(|m: MeshPrim| m@)
}

/// A copy of a list of number slots.
fn copy_slots(v: &Vec<NumSlot>) -> (c: Vec<NumSlot>)
    ensures
        slots_view(c@) == slots_view(v@),
        c.len() == v.len(),
{
    let mut c: Vec<NumSlot> = Vec::new();
    let mut i: usize = 0;
    while i < v.len()
        invariant
            i <= v.len(),
            c.len() == i,
            forall|j: int| 0 <= j < i ==> slot_view(#[trigger] c@[j]) == slot_view(v@[j]),
        decreases v.len() - i,
    {
        let s = match &v[i] {
            Some(t) => Some(t.clone()),
            None => None,
        };
        c.push(s);
        i = i + 1;
    }
    assert(slots_view(c@) =~= slots_view(v@));
    c
}

fn copy_op(v: &Option<Vec<NumSlot>>) -> (c: Option<Vec<NumSlot>>)
    ensures
        op_view(c) == op_view(*v),
        c is Some ==> c->0.len() == v->0.len(),
{
    match v {
        Some(s) => Some(copy_slots(s)),
        None => None,
    }
}

impl XformOps {
    /// A copy of these operations.
    pub fn copy(&self) -> (c: Self)
        ensures
            c@ == self@,
            c.translate is Some ==> c.translate->0.len() == self.translate->0.len(),
            c.scale is Some ==> c.scale->0.len() == self.scale->0.len(),
            c.orient is Some ==> c.orient->0.len() == self.orient->0.len(),
            c.rotate_xyz is Some ==> c.rotate_xyz->0.len() == self.rotate_xyz->0.len(),
            c.matrix is Some ==> c.matrix->0.len() == self.matrix->0.len(),
    {
        XformOps {
            translate: copy_op(&self.translate),
            scale: copy_op(&self.scale),
            orient: copy_op(&self.orient),
            rotate_xyz: copy_op(&self.rotate_xyz),
            matrix: copy_op(&self.matrix),
        }
    }
}

/// A copy of a chain of transform operations.
fn copy_chain(v: &Vec<XformOps>) -> (c: Vec<XformOps>)
    ensures
        chain_view(c@) == chain_view(v@),
{
    let mut c: Vec<XformOps> = Vec::new();
    let mut i: usize = 0;
    while i < v.len()
        invariant
            i <= v.len(),
            c.len() == i,
            forall|j: int| 0 <= j < i ==> (#[trigger] c@[j])@ == v@[j]@,
        decreases v.len() - i,
    {
        c.push(v[i].copy());
        i = i + 1;
    }
    assert(chain_view(c@) =~= chain_view(v@));
    c
}

// ── Token tests ─────────────────────────────────────────────────────────────

/// Punctuation token kinds.
#[derive(Clone, Copy, Debug, PartialEq, Eq, Structural)]
pub enum Punct {
    LBrace,
    RBrace,
    LBracket,
    RBracket,
    LParen,
    RParen,
    Comma,
    Eq,
}

/// The token `t` is the punctuation `p`.
pub open spec fn is_punct(t: Token<Seq<char>>, p: Punct) -> bool {
    match p {
        Punct::LBrace => t is LBrace,
        Punct::RBrace => t is RBrace,
        Punct::LBracket => t is LBracket,
        Punct::RBracket => t is RBracket,
        Punct::LParen => t is LParen,
        Punct::RParen => t is RParen,
        Punct::Comma => t is Comma,
        Punct::Eq => t is Eq,
    }
}

/// Token `p` exists and is the punctuation `k`.
pub open spec fn punct_at(ts: Seq<Token<Seq<char>>>, p: int, k: Punct) -> bool {
    0 <= p < ts.len() && is_punct(ts[p], k)
}

/// Whether token `p` exists and is the punctuation `k`.
pub fn at(toks: &Vec<Tok>, p: usize, k: Punct) -> (b: bool)
    ensures
        b == punct_at(toks_view(toks@), p as int, k),
{
    if p >= toks.len() {
        return false;
    }
    let t = &toks[p];
    match k {
        Punct::LBrace => matches!(t, Token::LBrace),
        Punct::RBrace => matches!(t, Token::RBrace),
        Punct::LBracket => matches!(t, Token::LBracket),
        Punct::RBracket => matches!(t, Token::RBracket),
        Punct::LParen => matches!(t, Token::LParen),
        Punct::RParen => matches!(t, Token::RParen),
        Punct::Comma => matches!(t, Token::Comma),
        Punct::Eq => matches!(t, Token::Eq),
    }
}

/// The literal of number token `p`, if token `p` is a number.
pub open spec fn num_at(ts: Seq<Token<Seq<char>>>, p: int) -> Option<Seq<char>> {
    if 0 <= p < ts.len() {
        match ts[p] {
            Token::Num(s) => Some(s),
            _ => None,
        }
    } else {
        None
    }
}

/// Reads a number token at `pos` (advancing past it), or nothing.
pub fn eat_num(toks: &Vec<Tok>, pos: &mut usize) -> (v: NumSlot)
    requires
        *old(pos) <= toks.len(),
    ensures
        slot_view(v) == num_at(toks_view(toks@), *old(pos) as int),
        *final(pos) == *old(pos) + if v is Some {
            1int
        } else {
            0int
        },
{
    if *pos < toks.len() {
        match &toks[*pos] {
            Token::Num(s) => {
                let v = s.clone();
                *pos = *pos + 1;
                Some(v)
            },
            _ => None,
        }
    } else {
        None
    }
}

/// Position after an optional comma at `p`.
pub open spec fn after_comma(ts: Seq<Token<Seq<char>>>, p: int) -> int {
    if punct_at(ts, p, Punct::Comma) {
        p + 1
    } else {
        p
    }
}

/// Skips a comma at `pos`, if there is one.
pub fn eat_comma(toks: &Vec<Tok>, pos: &mut usize)
    requires
        *old(pos) <= toks.len(),
    ensures
        *final(pos) == after_comma(toks_view(toks@), *old(pos) as int),
{
    if at(toks, *pos, Punct::Comma) {
        *pos = *pos + 1;
    }
}

/// Position after an optional punctuation `k` at `p`.
pub open spec fn after_opt(ts: Seq<Token<Seq<char>>>, p: int, k: Punct) -> int {
    if punct_at(ts, p, k) {
        p + 1
    } else {
        p
    }
}

fn eat_opt(toks: &Vec<Tok>, pos: &mut usize, k: Punct)
    requires
        *old(pos) <= toks.len(),
    ensures
        *final(pos) == after_opt(toks_view(toks@), *old(pos) as int, k),
{
    if at(toks, *pos, k) {
        *pos = *pos + 1;
    }
}

// ── Skipping nested groups ──────────────────────────────────────────────────

/// Scanning a group whose openers and closers are `open` and `close`, with
/// `depth` groups still open at `p`: the position just past the closer that
/// balances them, or the end.
pub open spec fn group_end(ts: Seq<Token<Seq<char>>>, p: int, depth: nat, open: Punct, close: Punct) -> int
    decreases ts.len() - p,
{
    if p < 0 || p >= ts.len() || depth == 0 {
        if p < 0 { 0 } else if p > ts.len() { ts.len() as int } else { p }
    } else if is_punct(ts[p], open) {
        group_end(ts, p + 1, depth + 1, open, close)
    } else if is_punct(ts[p], close) {
        group_end(ts, p + 1, (depth - 1) as nat, open, close)
    } else {
        group_end(ts, p + 1, depth, open, close)
    }
}

pub proof fn lemma_group_end_bounds(ts: Seq<Token<Seq<char>>>, p: int, depth: nat, open: Punct, close: Punct)
    requires
        0 <= p <= ts.len(),
    ensures
        p <= group_end(ts, p, depth, open, close) <= ts.len(),
    decreases ts.len() - p,
{
    if p < ts.len() && depth > 0 {
        if is_punct(ts[p], open) {
            lemma_group_end_bounds(ts, p + 1, depth + 1, open, close);
        } else if is_punct(ts[p], close) {
            lemma_group_end_bounds(ts, p + 1, (depth - 1) as nat, open, close);
        } else {
            lemma_group_end_bounds(ts, p + 1, depth, open, close);
        }
    }
}

fn skip_group(toks: &Vec<Tok>, pos: &mut usize, open: Punct, close: Punct)
    requires
        *old(pos) < toks.len(),
        punct_at(toks_view(toks@), *old(pos) as int, open),
    ensures
        *final(pos) == group_end(toks_view(toks@), *old(pos) + 1, 1, open, close),
        *old(pos) < *final(pos) <= toks.len(),
{
    let ghost ts = toks_view(toks@);
    let ghost start = *pos + 1;
    *pos = *pos + 1;
    let mut depth: usize = 1;
    proof {
        lemma_group_end_bounds(ts, start as int, 1, open, close);
    }
    while *pos < toks.len() && depth > 0
        invariant
            ts == toks_view(toks@),
            start <= *pos <= toks.len(),
            depth <= *pos,
            group_end(ts, *pos as int, depth as nat, open, close) == group_end(ts, start as int, 1, open, close),
        decreases toks.len() - *pos,
    {
        if at(toks, *pos, open) {
            depth = depth + 1;
        } else if at(toks, *pos, close) {
            depth = depth - 1;
        }
        *pos = *pos + 1;
    }
}

/// Position after a parenthesized group at `p` (nested groups included), or
/// `p` if there is none.
pub open spec fn paren_skip(ts: Seq<Token<Seq<char>>>, p: int) -> int {
    if punct_at(ts, p, Punct::LParen) {
        group_end(ts, p + 1, 1, Punct::LParen, Punct::RParen)
    } else {
        p
    }
}

/// Skips a parenthesized group (such as prim metadata) at `pos`.
pub fn skip_parens(toks: &Vec<Tok>, pos: &mut usize)
    requires
        *old(pos) <= toks.len(),
    ensures
        *final(pos) == paren_skip(toks_view(toks@), *old(pos) as int),
        *old(pos) <= *final(pos) <= toks.len(),
        punct_at(toks_view(toks@), *old(pos) as int, Punct::LParen) ==> *old(pos) < *final(pos),
{
    if !at(toks, *pos, Punct::LParen) {
        return;
    }
    skip_group(toks, pos, Punct::LParen, Punct::RParen);
}

/// Position after an attribute value at `p`: a bracketed list (with a
/// parenthesized suffix), a parenthesized group, or a single token.
pub open spec fn value_skip(ts: Seq<Token<Seq<char>>>, p: int) -> int {
    if punct_at(ts, p, Punct::LBracket) {
        paren_skip(ts, group_end(ts, p + 1, 1, Punct::LBracket, Punct::RBracket))
    } else if punct_at(ts, p, Punct::LParen) {
        paren_skip(ts, p)
    } else {
        p + 1
    }
}

/// Skips the value of an attribute that is not read.
pub fn skip_value(toks: &Vec<Tok>, pos: &mut usize)
    requires
        *old(pos) <= toks.len() < usize::MAX,
    ensures
        *final(pos) == value_skip(toks_view(toks@), *old(pos) as int),
        *old(pos) < *final(pos) <= toks.len() + 1,
{
    if at(toks, *pos, Punct::LBracket) {
        skip_group(toks, pos, Punct::LBracket, Punct::RBracket);
        skip_parens(toks, pos);
    } else if at(toks, *pos, Punct::LParen) {
        skip_parens(toks, pos);
    } else {
        *pos = *pos + 1;
    }
}

// ── Inline number groups ────────────────────────────────────────────────────

/// Reading `k` number slots from `p`, each followed by an optional comma:
/// the slots and the position after them.
pub open spec fn num_list(ts: Seq<Token<Seq<char>>>, p: int, k: nat) -> (Seq<Option<Seq<char>>>, int)
    decreases k,
{
    if k == 0 {
        (seq![], p)
    } else {
        let v = num_at(ts, p);
        let p1 = if v is Some {
            p + 1
        } else {
            p
        };
        let rest = num_list(ts, after_comma(ts, p1), (k - 1) as nat);
        (seq![v] + rest.0, rest.1)
    }
}

pub proof fn lemma_num_list_bounds(ts: Seq<Token<Seq<char>>>, p: int, k: nat)
    requires
        0 <= p <= ts.len(),
    ensures
        p <= num_list(ts, p, k).1 <= ts.len(),
        num_list(ts, p, k).0.len() == k,
    decreases k,
{
    if k > 0 {
        let v = num_at(ts, p);
        let p1 = if v is Some {
            p + 1
        } else {
            p
        };
        lemma_num_list_bounds(ts, after_comma(ts, p1), (k - 1) as nat);
    }
}

/// Reads `k` number slots, each followed by an optional comma.
fn parse_numbers(toks: &Vec<Tok>, pos: &mut usize, k: usize) -> (v: Vec<NumSlot>)
    requires
        *old(pos) <= toks.len(),
    ensures
        slots_view(v@) == num_list(toks_view(toks@), *old(pos) as int, k as nat).0,
        *final(pos) == num_list(toks_view(toks@), *old(pos) as int, k as nat).1,
        *old(pos) <= *final(pos) <= toks.len(),
    decreases k,
{
    proof {
        lemma_num_list_bounds(toks_view(toks@), *pos as int, k as nat);
    }
    if k == 0 {
        let v: Vec<NumSlot> = Vec::new();
        assert(slots_view(v@) =~= seq![]);
        return v;
    }
    let x = eat_num(toks, pos);
    eat_comma(toks, pos);
    let mut rest = parse_numbers(toks, pos, k - 1);
    let ghost r = rest@;
    rest.insert(0, x);
    assert(rest@ =~= seq![x] + r);
    assert(slots_view(rest@) =~= seq![slot_view(x)] + slots_view(r));
    rest
}

/// A parenthesized group of `k` numbers at `p` (both parentheses
/// optional): the slots and the position after the group.
pub open spec fn inline_group(ts: Seq<Token<Seq<char>>>, p: int, k: nat) -> (Seq<Option<Seq<char>>>, int) {
    let l = num_list(ts, after_opt(ts, p, Punct::LParen), k);
    (l.0, after_opt(ts, l.1, Punct::RParen))
}

fn parse_inline_group(toks: &Vec<Tok>, pos: &mut usize, k: usize) -> (v: Vec<NumSlot>)
    requires
        *old(pos) <= toks.len(),
    ensures
        slots_view(v@) == inline_group(toks_view(toks@), *old(pos) as int, k as nat).0,
        *final(pos) == inline_group(toks_view(toks@), *old(pos) as int, k as nat).1,
        *old(pos) <= *final(pos) <= toks.len(),
{
    eat_opt(toks, pos, Punct::LParen);
    let v = parse_numbers(toks, pos, k);
    eat_opt(toks, pos, Punct::RParen);
    v
}

/// Reads a value of three numbers, such as `(1, 2, 3)`.
pub fn parse_triple_inline(toks: &Vec<Tok>, pos: &mut usize) -> (v: Vec<NumSlot>)
    requires
        *old(pos) <= toks.len(),
    ensures
        slots_view(v@) == inline_group(toks_view(toks@), *old(pos) as int, 3).0,
        *final(pos) == inline_group(toks_view(toks@), *old(pos) as int, 3).1,
        *old(pos) <= *final(pos) <= toks.len(),
        v.len() == 3,
{
    let v = parse_inline_group(toks, pos, 3);
    proof {
        lemma_num_list_bounds(toks_view(toks@), after_opt(toks_view(toks@), *old(pos) as int, Punct::LParen), 3);
    }
    v
}

/// Reads a value of four numbers, such as a quaternion `(w, x, y, z)`.
pub fn parse_quad_inline(toks: &Vec<Tok>, pos: &mut usize) -> (v: Vec<NumSlot>)
    requires
        *old(pos) <= toks.len(),
    ensures
        slots_view(v@) == inline_group(toks_view(toks@), *old(pos) as int, 4).0,
        *final(pos) == inline_group(toks_view(toks@), *old(pos) as int, 4).1,
        *old(pos) <= *final(pos) <= toks.len(),
        v.len() == 4,
{
    let v = parse_inline_group(toks, pos, 4);
    proof {
        lemma_num_list_bounds(toks_view(toks@), after_opt(toks_view(toks@), *old(pos) as int, Punct::LParen), 4);
    }
    v
}

/// `r` matrix rows from `p`: each an optionally parenthesized group of four
/// numbers followed by an optional comma.
pub open spec fn matrix_rows(ts: Seq<Token<Seq<char>>>, p: int, r: nat) -> (Seq<Option<Seq<char>>>, int)
    decreases r,
{
    if r == 0 {
        (seq![], p)
    } else {
        let row = inline_group(ts, p, 4);
        let rest = matrix_rows(ts, after_comma(ts, row.1), (r - 1) as nat);
        (row.0 + rest.0, rest.1)
    }
}

/// A 4x4 matrix value at `p`, such as `( (1,0,0,0), ..., (0,0,0,1) )`.
pub open spec fn matrix_value(ts: Seq<Token<Seq<char>>>, p: int) -> (Seq<Option<Seq<char>>>, int) {
    let rows = matrix_rows(ts, after_opt(ts, p, Punct::LParen), 4);
    (rows.0, after_opt(ts, rows.1, Punct::RParen))
}

fn parse_matrix_rows(toks: &Vec<Tok>, pos: &mut usize, r: usize) -> (v: Vec<NumSlot>)
    requires
        *old(pos) <= toks.len(),
    ensures
        slots_view(v@) == matrix_rows(toks_view(toks@), *old(pos) as int, r as nat).0,
        *final(pos) == matrix_rows(toks_view(toks@), *old(pos) as int, r as nat).1,
        *old(pos) <= *final(pos) <= toks.len(),
        v.len() == 4 * r,
    decreases r,
{
    if r == 0 {
        let v: Vec<NumSlot> = Vec::new();
        assert(slots_view(v@) =~= seq![]);
        return v;
    }
    let ghost p0 = *pos as int;
    let mut row = parse_inline_group(toks, pos, 4);
    proof {
        lemma_num_list_bounds(toks_view(toks@), after_opt(toks_view(toks@), p0, Punct::LParen), 4);
    }
    eat_comma(toks, pos);
    let mut rest = parse_matrix_rows(toks, pos, r - 1);
    let ghost a = row@;
    let ghost b = rest@;
    row.append(&mut rest);
    assert(row@ =~= a + b);
    assert(slots_view(row@) =~= slots_view(a) + slots_view(b));
    row
}

/// Reads a 4x4 matrix value (sixteen numbers, row by row).
pub fn parse_matrix16_inline(toks: &Vec<Tok>, pos: &mut usize) -> (v: Vec<NumSlot>)
    requires
        *old(pos) <= toks.len(),
    ensures
        slots_view(v@) == matrix_value(toks_view(toks@), *old(pos) as int).0,
        *final(pos) == matrix_value(toks_view(toks@), *old(pos) as int).1,
        *old(pos) <= *final(pos) <= toks.len(),
        v.len() == 16,
{
    eat_opt(toks, pos, Punct::LParen);
    let v = parse_matrix_rows(toks, pos, 4);
    eat_opt(toks, pos, Punct::RParen);
    v
}

// ── Arrays ──────────────────────────────────────────────────────────────────

/// Items of an integer array from `p` up to its closing bracket: the number
/// literals (other tokens are passed over) and the position of the bracket
/// (or the end).
pub open spec fn int_items(ts: Seq<Token<Seq<char>>>, p: int) -> (Seq<Seq<char>>, int)
    decreases ts.len() - p,
{
    if p < 0 || p >= ts.len() || punct_at(ts, p, Punct::RBracket) {
        (seq![], p)
    } else {
        let rest = int_items(ts, after_comma(ts, p + 1));
        match num_at(ts, p) {
            Some(n) => (seq![n] + rest.0, rest.1),
            None => rest,
        }
    }
}

/// An integer array value at `p`, such as `[4, 4, 3]`: its number literals
/// and the position after it (and after a parenthesized suffix).
pub open spec fn int_array(ts: Seq<Token<Seq<char>>>, p: int) -> (Seq<Seq<char>>, int) {
    if !punct_at(ts, p, Punct::LBracket) {
        (seq![], p)
    } else {
        let items = int_items(ts, p + 1);
        (items.0, paren_skip(ts, after_opt(ts, items.1, Punct::RBracket)))
    }
}

pub proof fn lemma_int_items_bounds(ts: Seq<Token<Seq<char>>>, p: int)
    requires
        0 <= p <= ts.len(),
    ensures
        p <= int_items(ts, p).1 <= ts.len(),
    decreases ts.len() - p,
{
    if p < ts.len() && !punct_at(ts, p, Punct::RBracket) {
        lemma_int_items_bounds(ts, after_comma(ts, p + 1));
    }
}

/// The view of a list of literals.
pub open spec fn strings_view(v: Seq<String>) -> Seq<Seq<char>> {
    v.map_values(|s: String| s@)
}

/// Reads an integer array value, keeping the literal of each number.
pub fn parse_int_array(toks: &Vec<Tok>, pos: &mut usize) -> (v: Vec<String>)
    requires
        *old(pos) <= toks.len(),
    ensures
        strings_view(v@) == int_array(toks_view(toks@), *old(pos) as int).0,
        *final(pos) == int_array(toks_view(toks@), *old(pos) as int).1,
        *old(pos) <= *final(pos) <= toks.len(),
{
    let ghost ts = toks_view(toks@);
    let mut out: Vec<String> = Vec::new();
    if !at(toks, *pos, Punct::LBracket) {
        assert(strings_view(out@) =~= seq![]);
        return out;
    }
    *pos = *pos + 1;
    let ghost start = *pos as int;
    proof {
        lemma_int_items_bounds(ts, start);
        assert(strings_view(out@) =~= seq![]);
        assert(strings_view(out@) + int_items(ts, start).0 =~= int_items(ts, start).0);
    }
    while *pos < toks.len() && !at(toks, *pos, Punct::RBracket)
        invariant
            ts == toks_view(toks@),
            start <= *pos <= toks.len(),
            strings_view(out@) + int_items(ts, *pos as int).0 == int_items(ts, start).0,
            int_items(ts, *pos as int).1 == int_items(ts, start).1,
        decreases toks.len() - *pos,
    {
        let ghost p = *pos as int;
        let ghost before = out@;
        match &toks[*pos] {
            Token::Num(n) => {
                out.push(n.clone());
            },
            _ => {},
        }
        *pos = *pos + 1;
        eat_comma(toks, pos);
        proof {
            let rest = int_items(ts, *pos as int);
            if num_at(ts, p) is Some {
                assert(strings_view(out@) =~= strings_view(before) + seq![num_at(ts, p)->0]);
                assert(strings_view(out@) + rest.0 =~= strings_view(before) + (seq![num_at(ts, p)->0] + rest.0));
            } else {
                assert(out@ == before);
            }
        }
    }
    assert(strings_view(out@) =~= strings_view(out@) + seq![]);
    eat_opt(toks, pos, Punct::RBracket);
    skip_parens(toks, pos);
    out
}

/// One point of a points array at `p`: an optionally parenthesized group of
/// three numbers (commas after the first two), then an optional comma.
pub open spec fn vec3_item(ts: Seq<Token<Seq<char>>>, p: int) -> (Seq<Option<Seq<char>>>, int) {
    let xy = num_list(ts, after_opt(ts, p, Punct::LParen), 2);
    let z = num_at(ts, xy.1);
    let q = if z is Some {
        xy.1 + 1
    } else {
        xy.1
    };
    (xy.0.push(z), after_comma(ts, after_opt(ts, q, Punct::RParen)))
}

/// Points of a points array from `p` up to its closing bracket, and the
/// position of the bracket; `None` when reading stalls on a token that no
/// item rule consumes.
pub open spec fn vec3_items(ts: Seq<Token<Seq<char>>>, p: int) -> Option<(Seq<Seq<Option<Seq<char>>>>, int)>
    decreases ts.len() - p,
{
    if p < 0 || p >= ts.len() || punct_at(ts, p, Punct::RBracket) {
        Some((seq![], p))
    } else {
        let item = vec3_item(ts, p);
        if item.1 <= p || item.1 > ts.len() {
            None
        } else {
            match vec3_items(ts, item.1) {
                Some(rest) => Some((seq![item.0] + rest.0, rest.1)),
                None => None,
            }
        }
    }
}

/// A points array value at `p`: its points and the position after it (and
/// after a parenthesized suffix); `None` when reading stalls.
pub open spec fn vec3_array(ts: Seq<Token<Seq<char>>>, p: int) -> Option<(Seq<Seq<Option<Seq<char>>>>, int)> {
    if !punct_at(ts, p, Punct::LBracket) {
        Some((seq![], p))
    } else {
        match vec3_items(ts, p + 1) {
            Some(items) => Some((items.0, paren_skip(ts, after_opt(ts, items.1, Punct::RBracket)))),
            None => None,
        }
    }
}

/// The view of a list of points.
pub open spec fn points_view(v: Seq<Vec<NumSlot>>) -> Seq<Seq<Option<Seq<char>>>> {
    v.map_values(|p: Vec<NumSlot>| slots_view(p@))
}

pub proof fn lemma_vec3_items_bounds(ts: Seq<Token<Seq<char>>>, p: int)
    requires
        0 <= p <= ts.len(),
        vec3_items(ts, p) is Some,
    ensures
        p <= vec3_items(ts, p).unwrap().1 <= ts.len(),
    decreases ts.len() - p,
{
    if p < ts.len() && !punct_at(ts, p, Punct::RBracket) {
        lemma_vec3_items_bounds(ts, vec3_item(ts, p).1);
    }
}

/// Reads a points array value. Each point is read by the item rule; where a
/// token inside the brackets is consumed by no rule, reading cannot advance
/// and `None` is returned.
pub fn parse_vec3_array(toks: &Vec<Tok>, pos: &mut usize) -> (v: Option<Vec<Vec<NumSlot>>>)
    requires
        *old(pos) <= toks.len(),
    ensures
        v is None <==> vec3_array(toks_view(toks@), *old(pos) as int) is None,
        v is Some ==> points_view(v->0@) == vec3_array(toks_view(toks@), *old(pos) as int).unwrap().0
            && *final(pos) == vec3_array(toks_view(toks@), *old(pos) as int).unwrap().1,
        v is None ==> *final(pos) == toks.len(),
        *old(pos) <= *final(pos) <= toks.len(),
{
    let ghost ts = toks_view(toks@);
    let ghost p_in = *pos as int;
    let mut out: Vec<Vec<NumSlot>> = Vec::new();
    if !at(toks, *pos, Punct::LBracket) {
        assert(points_view(out@) =~= seq![]);
        return Some(out);
    }
    *pos = *pos + 1;
    let ghost start = *pos as int;
    assert(points_view(out@) =~= seq![]);
    while *pos < toks.len() && !at(toks, *pos, Punct::RBracket)
        invariant
            ts == toks_view(toks@),
            start <= *pos <= toks.len(),
            start == p_in + 1,
            p_in == *old(pos),
            punct_at(ts, p_in, Punct::LBracket),
            vec3_items(ts, start) is Some <==> vec3_items(ts, *pos as int) is Some,
            vec3_items(ts, *pos as int) is Some ==> points_view(out@) + vec3_items(ts, *pos as int).unwrap().0
                == vec3_items(ts, start).unwrap().0 && vec3_items(ts, *pos as int).unwrap().1 == vec3_items(ts, start).unwrap().1,
        decreases toks.len() - *pos,
    {
        let ghost p = *pos as int;
        let before = *pos;
        eat_opt(toks, pos, Punct::LParen);
        let mut pt = parse_numbers(toks, pos, 2);
        let z = eat_num(toks, pos);
        let ghost xy = pt@;
        pt.push(z);
        eat_opt(toks, pos, Punct::RParen);
        eat_comma(toks, pos);
        proof {
            lemma_num_list_bounds(ts, after_opt(ts, p, Punct::LParen), 2);
            assert(pt@ =~= xy.push(z));
            assert(slots_view(pt@) =~= slots_view(xy).push(slot_view(z)));
            assert(slots_view(pt@) == vec3_item(ts, p).0);
            assert(*pos as int == vec3_item(ts, p).1);
        }
        if *pos == before {
            *pos = toks.len();
            return None;
        }
        let ghost old_out = out@;
        out.push(pt);
        proof {
            assert(points_view(out@) =~= points_view(old_out) + seq![slots_view(pt@)]);
            if vec3_items(ts, *pos as int) is Some {
                let rest = vec3_items(ts, *pos as int)->0;
                assert(points_view(out@) + rest.0 =~= points_view(old_out) + (seq![slots_view(pt@)] + rest.0));
            }
        }
    }
    proof {
        assert(points_view(out@) + seq![] =~= points_view(out@));
    }
    eat_opt(toks, pos, Punct::RBracket);
    skip_parens(toks, pos);
    Some(out)
}

// ── Prim blocks ─────────────────────────────────────────────────────────────

/// Path of the child prim `name` under the prim at `parent`.
pub open spec fn child_path(parent: Seq<char>, name: Seq<char>) -> Seq<char> {
    if parent == seq!['/'] {
        seq!['/'] + name
    } else {
        parent + seq!['/'] + name
    }
}

/// `path` starts with `base`.
pub open spec fn under(base: Seq<char>, path: Seq<char>) -> bool {
    base.len() <= path.len() && path.subrange(0, base.len() as int) == base
}

fn make_child_path(parent: &String, name: &String) -> (p: String)
    ensures
        p@ == child_path(parent@, name@),
        under(parent@, p@),
{
    proof {
        reveal_strlit("/");
    }
    let mut v = chars_of(parent.as_str());
    let root = str_equal(parent.as_str(), "/");
    assert("/"@ =~= seq!['/']);
    if !root {
        v.push('/');
    }
    let n = chars_of(name.as_str());
    push_all(&mut v, &n);
    if root {
        assert(v@ =~= seq!['/'] + name@);
    } else {
        assert(v@ =~= parent@ + seq!['/'] + name@);
    }
    assert(v@.subrange(0, parent@.len() as int) =~= parent@);
    string_from_chars(&v)
}

fn word_at<'a>(toks: &'a Vec<Tok>, p: usize) -> (w: Option<&'a String>)
    ensures
        w is Some <==> (p < toks.len() && toks_view(toks@)[p as int] is Word),
        w is Some ==> toks_view(toks@)[p as int] == Token::Word(w->0@),
{
    if p < toks.len() {
        match &toks[p] {
            Token::Word(s) => Some(s),
            _ => None,
        }
    } else {
        None
    }
}

/// Token `p` is one of the prim specifiers `def`, `over` and `class`.
pub open spec fn specifier_at(ts: Seq<Token<Seq<char>>>, p: int) -> bool {
    0 <= p < ts.len() && (ts[p] == Token::Word(seq!['d', 'e', 'f']) || ts[p] == Token::Word(
        seq!['o', 'v', 'e', 'r'],
    ) || ts[p] == Token::Word(seq!['c', 'l', 'a', 's', 's']))
}

fn is_specifier(toks: &Vec<Tok>, p: usize) -> (b: bool)
    ensures
        b == specifier_at(toks_view(toks@), p as int),
{
    proof {
        reveal_strlit("def");
        reveal_strlit("over");
        reveal_strlit("class");
    }
    match word_at(toks, p) {
        Some(w) => {
            assert("def"@ =~= seq!['d', 'e', 'f']);
            assert("over"@ =~= seq!['o', 'v', 'e', 'r']);
            assert("class"@ =~= seq!['c', 'l', 'a', 's', 's']);
            let a = str_equal(w.as_str(), "def");
            let b = str_equal(w.as_str(), "over");
            let c = str_equal(w.as_str(), "class");
            assert(a == (w@ == seq!['d', 'e', 'f']));
            assert(b == (w@ == seq!['o', 'v', 'e', 'r']));
            assert(c == (w@ == seq!['c', 'l', 'a', 's', 's']));
            a || b || c
        },
        None => false,
    }
}

/// Position of the first `=`, `{` or `}` at or after `p`, or the end.
pub open spec fn op_value_start(ts: Seq<Token<Seq<char>>>, p: int) -> int
    decreases ts.len() - p,
{
    if p < 0 || p >= ts.len() || is_punct(ts[p], Punct::Eq) || is_punct(ts[p], Punct::LBrace)
        || is_punct(ts[p], Punct::RBrace) {
        p
    } else {
        op_value_start(ts, p + 1)
    }
}

/// `ops` after reading the value at `q` of the operation attribute named
/// `w`; the first of `translate`, `scale`, `orient`, `rotateXYZ` (or
/// `rotateXyz`) and `transform` that `w` contains decides which operation
/// it sets. Other names change nothing.
pub open spec fn read_op(ts: Seq<Token<Seq<char>>>, q: int, w: Seq<char>, ops: XformOpsView) -> XformOpsView {
    if seq_contains(w, "translate"@) {
        XformOpsView { translate: Some(inline_group(ts, q, 3).0), ..ops }
    } else if seq_contains(w, "scale"@) {
        XformOpsView { scale: Some(inline_group(ts, q, 3).0), ..ops }
    } else if seq_contains(w, "orient"@) {
        XformOpsView { orient: Some(inline_group(ts, q, 4).0), ..ops }
    } else if seq_contains(w, "rotateXYZ"@) || seq_contains(w, "rotateXyz"@) {
        XformOpsView { rotate_xyz: Some(inline_group(ts, q, 3).0), ..ops }
    } else if seq_contains(w, "transform"@) {
        XformOpsView { matrix: Some(matrix_value(ts, q).0), ..ops }
    } else {
        ops
    }
}

/// Scanning a block from `t` with `depth` braces open: the operations after
/// every word containing `xformOp:` at the block's own level (one brace
/// open; nested blocks are passed over) that is followed (before any brace)
/// by `=` has been read, in order, until the braces balance.
pub open spec fn ops_scan(ts: Seq<Token<Seq<char>>>, t: int, depth: nat, ops: XformOpsView) -> XformOpsView
    decreases ts.len() - t,
{
    if t < 0 || t >= ts.len() || depth == 0 {
        ops
    } else if is_punct(ts[t], Punct::LBrace) {
        ops_scan(ts, t + 1, depth + 1, ops)
    } else if is_punct(ts[t], Punct::RBrace) {
        ops_scan(ts, t + 1, (depth - 1) as nat, ops)
    } else {
        let next = match ts[t] {
            Token::Word(w) => {
                let e = op_value_start(ts, t + 1);
                if depth == 1 && seq_contains(w, "xformOp:"@) && punct_at(ts, e, Punct::Eq) {
                    read_op(ts, e + 1, w, ops)
                } else {
                    ops
                }
            },
            _ => ops,
        };
        ops_scan(ts, t + 1, depth, next)
    }
}

/// Token `t` is a word containing `part`.
pub open spec fn word_containing(t: Token<Seq<char>>, part: Seq<char>) -> bool {
    match t {
        Token::Word(w) => seq_contains(w, part),
        _ => false,
    }
}

/// Which slot an operation attribute fills: a name containing `translate`
/// fills the translate slot with its three values; one containing `scale`
/// (and not `translate`) fills the scale slot and leaves translate alone.
/// No other name changes either slot.
pub proof fn lemma_op_fills_its_slot(ts: Seq<Token<Seq<char>>>, q: int, w: Seq<char>, ops: XformOpsView)
    ensures
        seq_contains(w, "translate"@) ==> read_op(ts, q, w, ops).translate == Some(inline_group(ts, q, 3).0)
            && read_op(ts, q, w, ops).scale == ops.scale,
        !seq_contains(w, "translate"@) && seq_contains(w, "scale"@) ==> read_op(ts, q, w, ops).scale == Some(
            inline_group(ts, q, 3).0,
        ) && read_op(ts, q, w, ops).translate == ops.translate,
        !seq_contains(w, "translate"@) ==> read_op(ts, q, w, ops).translate == ops.translate,
        !seq_contains(w, "scale"@) && !seq_contains(w, "translate"@) ==> read_op(ts, q, w, ops).scale == ops.scale,
{
}

/// A prim's translate slot is only ever filled from a word containing
/// `translate`, and its scale slot only from a word containing `scale` but
/// not `translate`: scanning a block changes a slot only if such a word
/// lies in the scanned tokens.
pub proof fn lemma_scan_slot_sources(ts: Seq<Token<Seq<char>>>, t: int, depth: nat, ops: XformOpsView)
    ensures
        ops_scan(ts, t, depth, ops).translate != ops.translate ==> exists|p: int|
            t <= p < ts.len() && word_containing(#[trigger] ts[p], "translate"@),
        ops_scan(ts, t, depth, ops).scale != ops.scale ==> exists|p: int|
            t <= p < ts.len() && word_containing(#[trigger] ts[p], "scale"@) && !word_containing(ts[p], "translate"@),
        ops_scan(ts, t, depth, ops).orient != ops.orient ==> exists|p: int|
            t <= p < ts.len() && word_containing(#[trigger] ts[p], "orient"@) && !word_containing(ts[p], "translate"@)
                && !word_containing(ts[p], "scale"@),
        ops_scan(ts, t, depth, ops).rotate_xyz != ops.rotate_xyz ==> exists|p: int|
            t <= p < ts.len() && (word_containing(#[trigger] ts[p], "rotateXYZ"@) || word_containing(ts[p], "rotateXyz"@))
                && !word_containing(ts[p], "translate"@) && !word_containing(ts[p], "scale"@) && !word_containing(
                ts[p],
                "orient"@,
            ),
        ops_scan(ts, t, depth, ops).matrix != ops.matrix ==> exists|p: int|
            t <= p < ts.len() && word_containing(#[trigger] ts[p], "transform"@) && !word_containing(ts[p], "translate"@)
                && !word_containing(ts[p], "scale"@) && !word_containing(ts[p], "orient"@) && !word_containing(
                ts[p],
                "rotateXYZ"@,
            ) && !word_containing(ts[p], "rotateXyz"@),
    decreases ts.len() - t,
{
    if t < 0 || t >= ts.len() || depth == 0 {
    } else if is_punct(ts[t], Punct::LBrace) {
        lemma_scan_slot_sources(ts, t + 1, depth + 1, ops);
    } else if is_punct(ts[t], Punct::RBrace) {
        lemma_scan_slot_sources(ts, t + 1, (depth - 1) as nat, ops);
    } else {
        let next = match ts[t] {
            Token::Word(w) => {
                let e = op_value_start(ts, t + 1);
                if depth == 1 && seq_contains(w, "xformOp:"@) && punct_at(ts, e, Punct::Eq) {
                    read_op(ts, e + 1, w, ops)
                } else {
                    ops
                }
            },
            _ => ops,
        };
        lemma_scan_slot_sources(ts, t + 1, depth, next);
        if let Token::Word(w) = ts[t] {
            let e = op_value_start(ts, t + 1);
            lemma_op_fills_its_slot(ts, e + 1, w, ops);
        }
        assert(ops_scan(ts, t, depth, ops) == ops_scan(ts, t + 1, depth, next));
        if next.translate != ops.translate {
            assert(word_containing(ts[t], "translate"@));
        }
        if next.scale != ops.scale {
            assert(word_containing(ts[t], "scale"@) && !word_containing(ts[t], "translate"@));
        }
        if next.orient != ops.orient {
            assert(word_containing(ts[t], "orient"@));
        }
        if next.rotate_xyz != ops.rotate_xyz {
            assert(word_containing(ts[t], "rotateXYZ"@) || word_containing(ts[t], "rotateXyz"@));
        }
        if next.matrix != ops.matrix {
            assert(word_containing(ts[t], "transform"@));
        }
    }
}

/// Reads the transform operations authored on the prim whose block starts
/// at `start` (just after its opening brace), up to its closing brace;
/// blocks nested in it (child prims) are passed over. A later authoring of
/// an operation replaces an earlier one.
pub fn collect_xform_ops(toks: &Vec<Tok>, start: usize) -> (ops: XformOps)
    requires
        start <= toks.len() < usize::MAX,
    ensures
        ops@ == ops_scan(toks_view(toks@), start as int, 1, no_ops()),
        ops.translate is Some ==> ops.translate->0.len() == 3,
        ops.scale is Some ==> ops.scale->0.len() == 3,
        ops.orient is Some ==> ops.orient->0.len() == 4,
        ops.rotate_xyz is Some ==> ops.rotate_xyz->0.len() == 3,
        ops.matrix is Some ==> ops.matrix->0.len() == 16,
{
    let ghost ts = toks_view(toks@);
    let mut ops = XformOps::none();
    let mut depth: usize = 1;
    let mut t = start;
    while t < toks.len() && depth > 0
        invariant
            ts == toks_view(toks@),
            start <= t <= toks.len() < usize::MAX,
            depth <= t - start + 1,
            ops_scan(ts, t as int, depth as nat, ops@) == ops_scan(ts, start as int, 1, no_ops()),
            ops.translate is Some ==> ops.translate->0.len() == 3,
            ops.scale is Some ==> ops.scale->0.len() == 3,
            ops.orient is Some ==> ops.orient->0.len() == 4,
            ops.rotate_xyz is Some ==> ops.rotate_xyz->0.len() == 3,
            ops.matrix is Some ==> ops.matrix->0.len() == 16,
        decreases toks.len() - t,
    {
        if at(toks, t, Punct::LBrace) {
            depth = depth + 1;
        } else if at(toks, t, Punct::RBrace) {
            depth = depth - 1;
        } else {
            match word_at(toks, t) {
                Some(w) => {
                    if depth == 1 && str_contains(w.as_str(), "xformOp:") {
                        let mut tt = t + 1;
                        while tt < toks.len() && !at(toks, tt, Punct::Eq) && !at(toks, tt, Punct::LBrace)
                            && !at(toks, tt, Punct::RBrace)
                            invariant
                                ts == toks_view(toks@),
                                t < tt <= toks.len(),
                                op_value_start(ts, tt as int) == op_value_start(ts, t + 1),
                            decreases toks.len() - tt,
                        {
                            tt = tt + 1;
                        }
                        if at(toks, tt, Punct::Eq) {
                            tt = tt + 1;
                            if str_contains(w.as_str(), "translate") {
                                ops.translate = Some(parse_triple_inline(toks, &mut tt));
                            } else if str_contains(w.as_str(), "scale") {
                                ops.scale = Some(parse_triple_inline(toks, &mut tt));
                            } else if str_contains(w.as_str(), "orient") {
                                ops.orient = Some(parse_quad_inline(toks, &mut tt));
                            } else if str_contains(w.as_str(), "rotateXYZ") || str_contains(
                                w.as_str(),
                                "rotateXyz",
                            ) {
                                ops.rotate_xyz = Some(parse_triple_inline(toks, &mut tt));
                            } else if str_contains(w.as_str(), "transform") {
                                ops.matrix = Some(parse_matrix16_inline(toks, &mut tt));
                            }
                        }
                    }
                },
                None => {},
            }
        }
        t = t + 1;
    }
    ops
}

/// The contents read from a mesh prim block.
pub struct MeshBody {
    pub local: XformOps,
    pub points: Vec<Vec<NumSlot>>,
    pub face_vertex_counts: Vec<String>,
    pub face_vertex_indices: Vec<String>,
}

/// `new` extends `old`, and every added mesh lies under `base` and has a
/// point.
pub open spec fn extends_under(old: Seq<MeshPrim>, new: Seq<MeshPrim>, base: Seq<char>) -> bool {
    &&& old.len() <= new.len()
    &&& forall|i: int| 0 <= i < old.len() ==> new[i] == old[i]
    &&& forall|i: int| old.len() <= i < new.len() ==> under(base, #[trigger] new[i].path@)
    &&& forall|i: int| old.len() <= i < new.len() ==> (#[trigger] new[i]).points.len() > 0
}

proof fn lemma_under_trans(a: Seq<char>, b: Seq<char>, c: Seq<char>)
    requires
        under(a, b),
        under(b, c),
    ensures
        under(a, c),
{
    assert(c.subrange(0, a.len() as int) =~= b.subrange(0, a.len() as int));
}

proof fn lemma_extends_trans(r0: Seq<MeshPrim>, r1: Seq<MeshPrim>, r2: Seq<MeshPrim>, base: Seq<char>, sub: Seq<char>)
    requires
        extends_under(r0, r1, base),
        extends_under(r1, r2, sub),
        under(base, sub),
    ensures
        extends_under(r0, r2, base),
{
    assert forall|i: int| r0.len() <= i < r2.len() implies under(base, #[trigger] r2[i].path@) by {
        if i < r1.len() {
            assert(r2[i] == r1[i]);
        } else {
            lemma_under_trans(base, sub, r2[i].path@);
        }
    }
    assert forall|i: int| r0.len() <= i < r2.len() implies (#[trigger] r2[i]).points.len() > 0 by {
        if i < r1.len() {
            assert(r2[i] == r1[i]);
        }
    }
}

proof fn lemma_extends_push(r0: Seq<MeshPrim>, r1: Seq<MeshPrim>, m: MeshPrim, base: Seq<char>)
    requires
        extends_under(r0, r1, base),
        under(base, m.path@),
        m.points.len() > 0,
    ensures
        extends_under(r0, r1.push(m), base),
{
    assert forall|i: int| r0.len() <= i < r1.push(m).len() implies under(base, #[trigger] r1.push(m)[i].path@) by {
        if i < r1.len() {
            assert(r1.push(m)[i] == r1[i]);
        }
    }
    assert forall|i: int| r0.len() <= i < r1.push(m).len() implies (#[trigger] r1.push(m)[i]).points.len() > 0 by {
        if i < r1.len() {
            assert(r1.push(m)[i] == r1[i]);
        }
    }
}

// ── What reading a block gives ──────────────────────────────────────────────

/// The result of reading prim definitions: whether reading went through
/// (it stalls only inside a points array), the position reached, and the
/// meshes found, in order.
pub struct BlockRead {
    pub ok: bool,
    pub end: int,
    pub meshes: Seq<MeshPrimView>,
}

/// What has been read of a mesh prim's attributes so far.
pub struct MeshState {
    pub local: XformOpsView,
    pub points: Option<Seq<SlotsView>>,
    pub counts: Option<Seq<Seq<char>>>,
    pub indices: Option<Seq<Seq<char>>>,
}

/// Nothing read yet.
pub open spec fn mesh_start() -> MeshState {
    MeshState { local: no_ops(), points: None, counts: None, indices: None }
}

/// What the body of a mesh prim holds.
pub struct MeshBodyView {
    pub local: XformOpsView,
    pub points: Seq<SlotsView>,
    pub counts: Seq<Seq<char>>,
    pub indices: Seq<Seq<char>>,
}

/// The body read from a mesh prim's attributes: present when points,
/// counts and indices were all authored and there is at least one point.
pub open spec fn mesh_body(st: MeshState) -> Option<MeshBodyView> {
    match (st.points, st.counts, st.indices) {
        (Some(p), Some(c), Some(i)) => if p.len() == 0 {
            None
        } else {
            Some(MeshBodyView { local: st.local, points: p, counts: c, indices: i })
        },
        _ => None,
    }
}

/// The result of reading a mesh prim's block: its body (`Err` when reading
/// stalls), the position reached, and the meshes found inside it.
pub struct MeshRead {
    pub body: Result<Option<MeshBodyView>, ()>,
    pub end: int,
    pub meshes: Seq<MeshPrimView>,
}

/// The header of a prim whose specifier is just before `p`: whether its
/// type name is `Mesh`, its name (a string or a word; empty when missing),
/// and the position after its optional metadata.
pub open spec fn prim_header(ts: Seq<Token<Seq<char>>>, p: int) -> (bool, Seq<char>, int) {
    let typed = 0 <= p < ts.len() && ts[p] is Word && ts[p]->Word_0 != "\""@;
    let q = if typed {
        p + 1
    } else {
        p
    };
    let name: (Seq<char>, int) = if 0 <= q < ts.len() {
        match ts[q] {
            Token::Str(n) => (n, q + 1),
            Token::Word(n) => (n, q + 1),
            _ => (seq![], q),
        }
    } else {
        (seq![], q)
    };
    (typed && ts[p]->Word_0 == "Mesh"@, name.0, paren_skip(ts, name.1))
}

pub proof fn lemma_prim_header_bounds(ts: Seq<Token<Seq<char>>>, p: int)
    requires
        0 <= p <= ts.len(),
    ensures
        p <= prim_header(ts, p).2 <= ts.len(),
{
    let typed = 0 <= p < ts.len() && ts[p] is Word && ts[p]->Word_0 != "\""@;
    let q = if typed {
        p + 1
    } else {
        p
    };
    if q < ts.len() && (ts[q] is Str || ts[q] is Word) {
        lemma_paren_skip_bounds(ts, q + 1);
    } else {
        lemma_paren_skip_bounds(ts, q);
    }
}

pub proof fn lemma_paren_skip_bounds(ts: Seq<Token<Seq<char>>>, p: int)
    requires
        0 <= p <= ts.len(),
    ensures
        p <= paren_skip(ts, p) <= ts.len(),
{
    if punct_at(ts, p, Punct::LParen) {
        lemma_group_end_bounds(ts, p + 1, 1, Punct::LParen, Punct::RParen);
    }
}

/// Scanning an attribute line from `t`: the position of the first `=` or
/// `}` (or the end), and the last word before it (or `name`).
pub open spec fn attr_line(ts: Seq<Token<Seq<char>>>, t: int, name: Option<Seq<char>>) -> (int, Option<Seq<char>>)
    decreases ts.len() - t,
{
    if t < 0 || t >= ts.len() || is_punct(ts[t], Punct::Eq) || is_punct(ts[t], Punct::RBrace) {
        (t, name)
    } else {
        attr_line(
            ts,
            t + 1,
            match ts[t] {
                Token::Word(w) => Some(w),
                _ => name,
            },
        )
    }
}

/// Reading the value at `q` of a mesh attribute named `n`: the position
/// after it and the updated state; `None` when a points array stalls.
pub open spec fn mesh_attr(ts: Seq<Token<Seq<char>>>, q: int, n: Seq<char>, st: MeshState) -> Option<(int, MeshState)> {
    let l = st.local;
    if n == "points"@ {
        match vec3_array(ts, q) {
            Some(a) => Some((a.1, MeshState { points: Some(a.0), ..st })),
            None => None,
        }
    } else if n == "faceVertexCounts"@ {
        let a = int_array(ts, q);
        Some((a.1, MeshState { counts: Some(a.0), ..st }))
    } else if n == "faceVertexIndices"@ {
        let a = int_array(ts, q);
        Some((a.1, MeshState { indices: Some(a.0), ..st }))
    } else if seq_contains(n, "xformOp:translate"@) {
        let g = inline_group(ts, q, 3);
        Some((g.1, MeshState { local: XformOpsView { translate: Some(g.0), ..l }, ..st }))
    } else if seq_contains(n, "xformOp:scale"@) {
        let g = inline_group(ts, q, 3);
        Some((g.1, MeshState { local: XformOpsView { scale: Some(g.0), ..l }, ..st }))
    } else if seq_contains(n, "xformOp:orient"@) {
        let g = inline_group(ts, q, 4);
        Some((g.1, MeshState { local: XformOpsView { orient: Some(g.0), ..l }, ..st }))
    } else if seq_contains(n, "xformOp:rotateXYZ"@) || seq_contains(n, "xformOp:rotateXyz"@) {
        let g = inline_group(ts, q, 3);
        Some((g.1, MeshState { local: XformOpsView { rotate_xyz: Some(g.0), ..l }, ..st }))
    } else if seq_contains(n, "xformOp:transform"@) {
        let g = matrix_value(ts, q);
        Some((g.1, MeshState { local: XformOpsView { matrix: Some(g.0), ..l }, ..st }))
    } else {
        Some((value_skip(ts, q), st))
    }
}

/// Reading one attribute of a mesh prim fills only the slot its name
/// names: the mesh's own translate only from a name containing
/// `xformOp:translate`, its scale (with the three values read) from a name
/// containing `xformOp:scale` and not `xformOp:translate`; points, face
/// counts and face indices only from attributes with exactly those names.
pub proof fn lemma_mesh_attr_fills_its_slot(ts: Seq<Token<Seq<char>>>, q: int, n: Seq<char>, st: MeshState)
    ensures
        match mesh_attr(ts, q, n, st) {
            Some(r) => {
                &&& r.1.local.translate != st.local.translate ==> seq_contains(n, "xformOp:translate"@)
                &&& r.1.local.scale != st.local.scale ==> seq_contains(n, "xformOp:scale"@) && !seq_contains(
                    n,
                    "xformOp:translate"@,
                )
                &&& r.1.points != st.points ==> n == "points"@
                &&& r.1.counts != st.counts ==> n == "faceVertexCounts"@
                &&& r.1.indices != st.indices ==> n == "faceVertexIndices"@
            },
            None => n == "points"@,
        },
        n != "points"@ && n != "faceVertexCounts"@ && n != "faceVertexIndices"@ && seq_contains(n, "xformOp:scale"@)
            && !seq_contains(n, "xformOp:translate"@) ==> mesh_attr(ts, q, n, st) == Some(
            (
                inline_group(ts, q, 3).1,
                MeshState { local: XformOpsView { scale: Some(inline_group(ts, q, 3).0), ..st.local }, ..st },
            ),
        ),
        n != "points"@ && n != "faceVertexCounts"@ && n != "faceVertexIndices"@ && seq_contains(n, "xformOp:translate"@)
            ==> mesh_attr(ts, q, n, st) == Some(
            (
                inline_group(ts, q, 3).1,
                MeshState { local: XformOpsView { translate: Some(inline_group(ts, q, 3).0), ..st.local }, ..st },
            ),
        ),
{
}


/// Reading prim definitions at `p`, in the block of the prim at `path`
/// whose enclosing transforms are `chain`, up to the brace that closes the
/// block (consumed) or the end. A prim is a specifier (`def`, `over`,
/// `class`), a header and a braced body; a `Mesh` prim's body is read by
/// `mesh_read` and the mesh follows the meshes found inside it; any other
/// prim's body is read as a block under it, its own transform operations
/// added to the chain. Other tokens are passed over.
pub open spec fn block_read(ts: Seq<Token<Seq<char>>>, p: int, path: Seq<char>, chain: Seq<XformOpsView>) -> BlockRead
    decreases ts.len() + 1 - p, 2nat,
{
    if p < 0 || p >= ts.len() {
        BlockRead { ok: true, end: p, meshes: seq![] }
    } else if is_punct(ts[p], Punct::RBrace) {
        BlockRead { ok: true, end: p + 1, meshes: seq![] }
    } else if specifier_at(ts, p) {
        let (is_mesh, name, q) = prim_header(ts, p + 1);
        proof {
            lemma_prim_header_bounds(ts, p + 1);
        }
        let child = child_path(path, name);
        if punct_at(ts, q, Punct::LBrace) {
            if is_mesh {
                let m = mesh_read(ts, q + 1, child, mesh_start());
                match m.body {
                    Ok(Some(b)) => block_after(
                        ts,
                        p,
                        m.end,
                        path,
                        chain,
                        m.meshes.push(
                            MeshPrimView {
                                path: child,
                                ancestors: chain,
                                local: b.local,
                                points: b.points,
                                face_vertex_counts: b.counts,
                                face_vertex_indices: b.indices,
                            },
                        ),
                    ),
                    Ok(None) => block_after(ts, p, m.end, path, chain, m.meshes),
                    Err(()) => BlockRead { ok: false, end: m.end, meshes: m.meshes },
                }
            } else {
                let x = block_read(ts, q + 1, child, chain.push(ops_scan(ts, q + 1, 1, no_ops())));
                if x.ok {
                    block_after(ts, p, x.end, path, chain, x.meshes)
                } else {
                    x
                }
            }
        } else {
            block_after(ts, p, q, path, chain, seq![])
        }
    } else {
        block_read(ts, p + 1, path, chain)
    }
}

/// Reading on at `e` after the prim at `p`, with `found` the meshes found so
/// far in it. (Reading always advances, by `lemma_block_read_advances`: the
/// first case does not arise.)
pub open spec fn block_after(
    ts: Seq<Token<Seq<char>>>,
    p: int,
    e: int,
    path: Seq<char>,
    chain: Seq<XformOpsView>,
    found: Seq<MeshPrimView>,
) -> BlockRead
    decreases ts.len() + 1 - p, 1nat,
{
    if e <= p || e > ts.len() + 1 {
        BlockRead { ok: true, end: e, meshes: found }
    } else {
        let r = block_read(ts, e, path, chain);
        BlockRead { ok: r.ok, end: r.end, meshes: found + r.meshes }
    }
}

/// Reading the body of the mesh prim at `path` from `p`, with `st` read so
/// far, up to its closing brace (consumed) or the end. A specifier starts
/// prim definitions read as a block under `path` with no enclosing
/// transforms; otherwise a line up to `=` is an attribute named by its
/// last word, whose value is read by `mesh_attr`; a line without `=` is
/// passed over one token at a time.
pub open spec fn mesh_read(ts: Seq<Token<Seq<char>>>, p: int, path: Seq<char>, st: MeshState) -> MeshRead
    decreases ts.len() + 1 - p, 3nat,
{
    if p < 0 || p >= ts.len() || is_punct(ts[p], Punct::RBrace) {
        MeshRead { body: Ok(mesh_body(st)), end: after_opt(ts, p, Punct::RBrace), meshes: seq![] }
    } else if specifier_at(ts, p) {
        let b = block_read(ts, p, path, seq![]);
        if b.ok {
            mesh_after(ts, p, b.end, path, st, b.meshes)
        } else {
            MeshRead { body: Err(()), end: b.end, meshes: b.meshes }
        }
    } else {
        let (t, name) = attr_line(ts, p, None);
        if punct_at(ts, t, Punct::Eq) {
            let next = match name {
                Some(n) => mesh_attr(ts, t + 1, n, st),
                None => Some((value_skip(ts, t + 1), st)),
            };
            match next {
                Some((e, st2)) => mesh_after(ts, p, e, path, st2, seq![]),
                None => MeshRead { body: Err(()), end: ts.len() as int, meshes: seq![] },
            }
        } else {
            mesh_after(ts, p, p + 1, path, st, seq![])
        }
    }
}

/// Reading a mesh body on at `e` after the line or prims at `p`, with
/// `found` the meshes found there. (Reading always advances, by
/// `lemma_mesh_read_advances`: the first case does not arise.)
pub open spec fn mesh_after(
    ts: Seq<Token<Seq<char>>>,
    p: int,
    e: int,
    path: Seq<char>,
    st: MeshState,
    found: Seq<MeshPrimView>,
) -> MeshRead
    decreases ts.len() + 1 - p, 1nat,
{
    if e <= p || e > ts.len() + 1 {
        MeshRead { body: Err(()), end: e, meshes: found }
    } else {
        let r = mesh_read(ts, e, path, st);
        MeshRead { body: r.body, end: r.end, meshes: found + r.meshes }
    }
}

// ── Reading advances ────────────────────────────────────────────────────────

pub proof fn lemma_after_opt_bounds(ts: Seq<Token<Seq<char>>>, p: int, k: Punct)
    requires
        0 <= p <= ts.len(),
    ensures
        p <= after_opt(ts, p, k) <= ts.len(),
{
}

pub proof fn lemma_inline_group_bounds(ts: Seq<Token<Seq<char>>>, p: int, k: nat)
    requires
        0 <= p <= ts.len(),
    ensures
        p <= inline_group(ts, p, k).1 <= ts.len(),
{
    let q = after_opt(ts, p, Punct::LParen);
    lemma_num_list_bounds(ts, q, k);
}

pub proof fn lemma_matrix_rows_bounds(ts: Seq<Token<Seq<char>>>, p: int, r: nat)
    requires
        0 <= p <= ts.len(),
    ensures
        p <= matrix_rows(ts, p, r).1 <= ts.len(),
    decreases r,
{
    if r > 0 {
        lemma_inline_group_bounds(ts, p, 4);
        lemma_matrix_rows_bounds(ts, after_comma(ts, inline_group(ts, p, 4).1), (r - 1) as nat);
    }
}

pub proof fn lemma_value_skip_bounds(ts: Seq<Token<Seq<char>>>, p: int)
    requires
        0 <= p <= ts.len(),
    ensures
        p < value_skip(ts, p) <= ts.len() + 1,
{
    if punct_at(ts, p, Punct::LBracket) {
        lemma_group_end_bounds(ts, p + 1, 1, Punct::LBracket, Punct::RBracket);
        lemma_paren_skip_bounds(ts, group_end(ts, p + 1, 1, Punct::LBracket, Punct::RBracket));
    } else if punct_at(ts, p, Punct::LParen) {
        lemma_group_end_bounds(ts, p + 1, 1, Punct::LParen, Punct::RParen);
    }
}

pub proof fn lemma_attr_line_bounds(ts: Seq<Token<Seq<char>>>, t: int, name: Option<Seq<char>>)
    requires
        0 <= t <= ts.len(),
    ensures
        t <= attr_line(ts, t, name).0 <= ts.len(),
    decreases ts.len() - t,
{
    if t < ts.len() && !is_punct(ts[t], Punct::Eq) && !is_punct(ts[t], Punct::RBrace) {
        let next = match ts[t] {
            Token::Word(w) => Some(w),
            _ => name,
        };
        lemma_attr_line_bounds(ts, t + 1, next);
    }
}

pub proof fn lemma_mesh_attr_bounds(ts: Seq<Token<Seq<char>>>, q: int, n: Seq<char>, st: MeshState)
    requires
        0 <= q <= ts.len(),
    ensures
        mesh_attr(ts, q, n, st) matches Some((e, _)) ==> q <= e <= ts.len() + 1,
{
    lemma_value_skip_bounds(ts, q);
    lemma_inline_group_bounds(ts, q, 3);
    lemma_inline_group_bounds(ts, q, 4);
    lemma_matrix_rows_bounds(ts, after_opt(ts, q, Punct::LParen), 4);
    if punct_at(ts, q, Punct::LBracket) {
        lemma_int_items_bounds(ts, q + 1);
        lemma_after_opt_bounds(ts, int_items(ts, q + 1).1, Punct::RBracket);
        lemma_paren_skip_bounds(ts, after_opt(ts, int_items(ts, q + 1).1, Punct::RBracket));
        if vec3_items(ts, q + 1) is Some {
            lemma_vec3_items_bounds(ts, q + 1);
            lemma_after_opt_bounds(ts, vec3_items(ts, q + 1).unwrap().1, Punct::RBracket);
            lemma_paren_skip_bounds(ts, after_opt(ts, vec3_items(ts, q + 1).unwrap().1, Punct::RBracket));
        }
    }
}

/// Reading prim definitions at `p` ends no earlier than `p` and no later
/// than one past the end, and past `p` when a token is there.
pub proof fn lemma_block_read_advances(ts: Seq<Token<Seq<char>>>, p: int, path: Seq<char>, chain: Seq<XformOpsView>)
    requires
        0 <= p <= ts.len() + 1,
    ensures
        p <= block_read(ts, p, path, chain).end <= ts.len() + 1,
        p < ts.len() ==> p < block_read(ts, p, path, chain).end,
    decreases ts.len() + 1 - p, 2nat,
{
    if p < ts.len() && !is_punct(ts[p], Punct::RBrace) {
        if specifier_at(ts, p) {
            let (is_mesh, name, q) = prim_header(ts, p + 1);
            lemma_prim_header_bounds(ts, p + 1);
            let child = child_path(path, name);
            if punct_at(ts, q, Punct::LBrace) {
                if is_mesh {
                    let m = mesh_read(ts, q + 1, child, mesh_start());
                    lemma_mesh_read_advances(ts, q + 1, child, mesh_start());
                    match m.body {
                        Ok(Some(b)) => {
                            let mv = MeshPrimView {
                                path: child,
                                ancestors: chain,
                                local: b.local,
                                points: b.points,
                                face_vertex_counts: b.counts,
                                face_vertex_indices: b.indices,
                            };
                            lemma_block_after_advances(ts, p, m.end, path, chain, m.meshes.push(mv));
                        },
                        Ok(None) => {
                            lemma_block_after_advances(ts, p, m.end, path, chain, m.meshes);
                        },
                        Err(()) => {},
                    }
                } else {
                    let inner = chain.push(ops_scan(ts, q + 1, 1, no_ops()));
                    let x = block_read(ts, q + 1, child, inner);
                    lemma_block_read_advances(ts, q + 1, child, inner);
                    if x.ok {
                        lemma_block_after_advances(ts, p, x.end, path, chain, x.meshes);
                    }
                }
            } else {
                lemma_block_after_advances(ts, p, q, path, chain, seq![]);
            }
        } else {
            lemma_block_read_advances(ts, p + 1, path, chain);
        }
    }
}

/// Reading on at `e` past `p` ends past `p`.
pub proof fn lemma_block_after_advances(
    ts: Seq<Token<Seq<char>>>,
    p: int,
    e: int,
    path: Seq<char>,
    chain: Seq<XformOpsView>,
    found: Seq<MeshPrimView>,
)
    requires
        0 <= p < e <= ts.len() + 1,
    ensures
        p < block_after(ts, p, e, path, chain, found).end <= ts.len() + 1,
    decreases ts.len() + 1 - p, 1nat,
{
    lemma_block_read_advances(ts, e, path, chain);
}

/// Reading a mesh body at `p` ends no earlier than `p` and no later than
/// one past the end.
pub proof fn lemma_mesh_read_advances(ts: Seq<Token<Seq<char>>>, p: int, path: Seq<char>, st: MeshState)
    requires
        0 <= p <= ts.len() + 1,
    ensures
        p <= mesh_read(ts, p, path, st).end <= ts.len() + 1,
    decreases ts.len() + 1 - p, 3nat,
{
    if p < ts.len() && !is_punct(ts[p], Punct::RBrace) {
        if specifier_at(ts, p) {
            let b = block_read(ts, p, path, seq![]);
            lemma_block_read_advances(ts, p, path, seq![]);
            if b.ok {
                lemma_mesh_after_advances(ts, p, b.end, path, st, b.meshes);
            }
        } else {
            let (t, name) = attr_line(ts, p, None);
            lemma_attr_line_bounds(ts, p, None);
            if punct_at(ts, t, Punct::Eq) {
                lemma_value_skip_bounds(ts, t + 1);
                let next = match name {
                    Some(n) => {
                        lemma_mesh_attr_bounds(ts, t + 1, n, st);
                        mesh_attr(ts, t + 1, n, st)
                    },
                    None => Some((value_skip(ts, t + 1), st)),
                };
                match next {
                    Some((e, st2)) => {
                        lemma_mesh_after_advances(ts, p, e, path, st2, seq![]);
                    },
                    None => {},
                }
            } else {
                lemma_mesh_after_advances(ts, p, p + 1, path, st, seq![]);
            }
        }
    }
}

/// Reading a mesh body on at `e` past `p` ends past `p`.
pub proof fn lemma_mesh_after_advances(
    ts: Seq<Token<Seq<char>>>,
    p: int,
    e: int,
    path: Seq<char>,
    st: MeshState,
    found: Seq<MeshPrimView>,
)
    requires
        0 <= p < e <= ts.len() + 1,
    ensures
        p < mesh_after(ts, p, e, path, st, found).end <= ts.len() + 1,
    decreases ts.len() + 1 - p, 1nat,
{
    lemma_mesh_read_advances(ts, e, path, st);
}

impl View for MeshBody {
    type V = MeshBodyView;

    open spec fn view(&self) -> MeshBodyView {
        MeshBodyView {
            local: self.local@,
            points: points_view(self.points@),
            counts: strings_view(self.face_vertex_counts@),
            indices: strings_view(self.face_vertex_indices@),
        }
    }
}

/// View of what reading a mesh prim's block gave.
pub open spec fn body_view(r: Result<Option<MeshBody>, ()>) -> Result<Option<MeshBodyView>, ()> {
    match r {
        Ok(Some(b)) => Ok(Some(b@)),
        Ok(None) => Ok(None),
        Err(()) => Err(()),
    }
}

spec fn state_view(
    local: XformOps,
    points: Option<Vec<Vec<NumSlot>>>,
    counts: Option<Vec<String>>,
    indices: Option<Vec<String>>,
) -> MeshState {
    MeshState {
        local: local@,
        points: match points {
            Some(v) => Some(points_view(v@)),
            None => None,
        },
        counts: match counts {
            Some(v) => Some(strings_view(v@)),
            None => None,
        },
        indices: match indices {
            Some(v) => Some(strings_view(v@)),
            None => None,
        },
    }
}

spec fn name_view(n: Option<&String>) -> Option<Seq<char>> {
    match n {
        Some(w) => Some(w@),
        None => None,
    }
}

/// Reads the block of a non-mesh prim at `path` that starts at `pos` (just
/// after its opening brace): its own transform operations are appended to
/// `chain`, then its child prims are read. Returns `false` when reading
/// stalls inside a points array.
pub fn parse_xform_block(
    toks: &Vec<Tok>,
    pos: &mut usize,
    path: &String,
    chain: &Vec<XformOps>,
    results: &mut Vec<MeshPrim>,
) -> (ok: bool)
    requires
        *old(pos) <= toks.len() < usize::MAX,
    ensures
        *old(pos) <= *final(pos) <= toks.len() + 1,
        extends_under(old(results)@, final(results)@, path@),
        ok == block_read(
            toks_view(toks@),
            *old(pos) as int,
            path@,
            chain_view(chain@).push(ops_scan(toks_view(toks@), *old(pos) as int, 1, no_ops())),
        ).ok,
        *final(pos) == block_read(
            toks_view(toks@),
            *old(pos) as int,
            path@,
            chain_view(chain@).push(ops_scan(toks_view(toks@), *old(pos) as int, 1, no_ops())),
        ).end,
        meshes_view(final(results)@) == meshes_view(old(results)@) + block_read(
            toks_view(toks@),
            *old(pos) as int,
            path@,
            chain_view(chain@).push(ops_scan(toks_view(toks@), *old(pos) as int, 1, no_ops())),
        ).meshes,
    decreases toks.len() + 1 - *old(pos), 1nat,
{
    let ops = collect_xform_ops(toks, *pos);
    let mut inner = copy_chain(chain);
    let ghost c = inner@;
    inner.push(ops);
    assert(chain_view(inner@) =~= chain_view(c).push(ops@));
    parse_block(toks, pos, path, &inner, results)
}

/// Reads the block of a mesh prim at `path` that starts at `pos` (just after
/// its opening brace): its `points`, `faceVertexCounts`,
/// `faceVertexIndices` and transform operations. Prims defined inside it
/// are read as blocks under `path` with no enclosing transforms. Yields
/// `None` when points, counts or indices are missing or there are no
/// points; `Err` when reading stalls inside a points array.
pub fn parse_mesh_prim(
    toks: &Vec<Tok>,
    pos: &mut usize,
    path: &String,
    results: &mut Vec<MeshPrim>,
) -> (r: Result<Option<MeshBody>, ()>)
    requires
        *old(pos) <= toks.len() < usize::MAX,
    ensures
        *old(pos) <= *final(pos) <= toks.len() + 1,
        extends_under(old(results)@, final(results)@, path@),
        r matches Ok(Some(b)) ==> b.points.len() > 0,
        body_view(r) == mesh_read(toks_view(toks@), *old(pos) as int, path@, mesh_start()).body,
        *final(pos) == mesh_read(toks_view(toks@), *old(pos) as int, path@, mesh_start()).end,
        meshes_view(final(results)@) == meshes_view(old(results)@) + mesh_read(
            toks_view(toks@),
            *old(pos) as int,
            path@,
            mesh_start(),
        ).meshes,
    decreases toks.len() + 1 - *old(pos), 1nat,
{
    let ghost ts = toks_view(toks@);
    let ghost entry = *pos;
    let ghost r0 = results@;
    let ghost whole = mesh_read(ts, entry as int, path@, mesh_start());
    let no_chain: Vec<XformOps> = Vec::new();
    let mut local = XformOps::none();
    let mut points: Option<Vec<Vec<NumSlot>>> = None;
    let mut counts: Option<Vec<String>> = None;
    let mut indices: Option<Vec<String>> = None;
    proof {
        assert(chain_view(no_chain@) =~= seq![]);
        assert(meshes_view(results@) + whole.meshes =~= meshes_view(r0) + whole.meshes);
    }
    while *pos < toks.len() && !at(toks, *pos, Punct::RBrace)
        invariant
            ts == toks_view(toks@),
            chain_view(no_chain@) == Seq::<XformOpsView>::empty(),
            entry <= *pos <= toks.len() + 1,
            entry == *old(pos),
            r0 == old(results)@,
            toks.len() < usize::MAX,
            extends_under(r0, results@, path@),
            whole == mesh_read(ts, entry as int, path@, mesh_start()),
            mesh_read(ts, *pos as int, path@, state_view(local, points, counts, indices)).body
                == whole.body,
            mesh_read(ts, *pos as int, path@, state_view(local, points, counts, indices)).end
                == whole.end,
            meshes_view(results@) + mesh_read(
                ts,
                *pos as int,
                path@,
                state_view(local, points, counts, indices),
            ).meshes == meshes_view(r0) + whole.meshes,
        decreases toks.len() + 1 - *pos,
    {
        let ghost p = *pos as int;
        let ghost st = state_view(local, points, counts, indices);
        let ghost res_p = results@;
        if is_specifier(toks, *pos) {
            let ghost before = results@;
            let ok = parse_block(toks, pos, path, &no_chain, results);
            proof {
                assert forall|i: int| r0.len() <= i < results@.len() implies under(path@, #[trigger] results@[i].path@) by {
                    if i < before.len() {
                        assert(results@[i] == before[i]);
                    }
                }
            }
            if !ok {
                proof {
                    assert(meshes_view(results@) + seq![] =~= meshes_view(results@));
                }
                return Err(());
            }
            proof {
                let b = block_read(ts, p, path@, seq![]);
                let rest = mesh_read(ts, *pos as int, path@, st);
                assert(mesh_after(ts, p, b.end, path@, st, b.meshes).meshes == b.meshes + rest.meshes);
                assert(meshes_view(results@) + rest.meshes =~= meshes_view(res_p) + (b.meshes + rest.meshes));
            }
            continue;
        }
        let line_start = *pos;
        let mut attr_name: Option<&String> = None;
        let mut temp = *pos;
        while temp < toks.len() && !at(toks, temp, Punct::Eq) && !at(toks, temp, Punct::RBrace)
            invariant
                ts == toks_view(toks@),
                line_start <= temp <= toks.len(),
                line_start == p,
                attr_line(ts, temp as int, name_view(attr_name)) == attr_line(ts, p, None),
            decreases toks.len() - temp,
        {
            match word_at(toks, temp) {
                Some(w) => {
                    attr_name = Some(w);
                },
                None => {},
            }
            temp = temp + 1;
        }
        if at(toks, temp, Punct::Eq) {
            *pos = temp + 1;
            let ghost q = *pos as int;
            match attr_name {
                Some(name) => {
                    let n = name.as_str();
                    if str_equal(n, "points") {
                        match parse_vec3_array(toks, pos) {
                            Some(v) => {
                                points = Some(v);
                            },
                            None => {
                                proof {
                                    assert(meshes_view(results@) + seq![] =~= meshes_view(results@));
                                }
                                return Err(());
                            },
                        }
                    } else if str_equal(n, "faceVertexCounts") {
                        counts = Some(parse_int_array(toks, pos));
                    } else if str_equal(n, "faceVertexIndices") {
                        indices = Some(parse_int_array(toks, pos));
                    } else if str_contains(n, "xformOp:translate") {
                        local.translate = Some(parse_triple_inline(toks, pos));
                    } else if str_contains(n, "xformOp:scale") {
                        local.scale = Some(parse_triple_inline(toks, pos));
                    } else if str_contains(n, "xformOp:orient") {
                        local.orient = Some(parse_quad_inline(toks, pos));
                    } else if str_contains(n, "xformOp:rotateXYZ") || str_contains(n, "xformOp:rotateXyz") {
                        local.rotate_xyz = Some(parse_triple_inline(toks, pos));
                    } else if str_contains(n, "xformOp:transform") {
                        local.matrix = Some(parse_matrix16_inline(toks, pos));
                    } else {
                        skip_value(toks, pos);
                    }
                    proof {
                        assert(mesh_attr(ts, q, name@, st) == Some(
                            (*pos as int, state_view(local, points, counts, indices)),
                        ));
                    }
                },
                None => {
                    skip_value(toks, pos);
                },
            }
        } else {
            if *pos == line_start {
                *pos = *pos + 1;
            }
        }
        proof {
            let st2 = state_view(local, points, counts, indices);
            let rest = mesh_read(ts, *pos as int, path@, st2);
            assert(mesh_read(ts, p, path@, st) == mesh_after(ts, p, *pos as int, path@, st2, seq![]));
            assert(seq![] + rest.meshes =~= rest.meshes);
        }
    }
    if at(toks, *pos, Punct::RBrace) {
        *pos = *pos + 1;
    }
    proof {
        assert(meshes_view(results@) + seq![] =~= meshes_view(results@));
    }
    match (points, counts, indices) {
        (Some(pts), Some(c), Some(i)) => {
            if pts.len() == 0 {
                Ok(None)
            } else {
                Ok(Some(MeshBody { local, points: pts, face_vertex_counts: c, face_vertex_indices: i }))
            }
        },
        _ => Ok(None),
    }
}

/// Reads prim definitions from `pos` until the closing brace of the
/// enclosing block (consumed) or the end of the tokens. `def`, `over` and
/// `class` introduce a prim: an optional type name, a name, optional
/// metadata in parentheses and a braced body. Mesh prims are added to
/// `results` after any mesh found inside them, with `chain` as their
/// enclosing transforms; other prims are read as transform blocks. Returns
/// `false` when reading stalls inside a points array.
#[verifier::rlimit(60)]
#[verifier::spinoff_prover]
pub fn parse_block(
    toks: &Vec<Tok>,
    pos: &mut usize,
    current_path: &String,
    chain: &Vec<XformOps>,
    results: &mut Vec<MeshPrim>,
) -> (ok: bool)
    requires
        *old(pos) <= toks.len() + 1,
        toks.len() < usize::MAX,
    ensures
        *old(pos) <= *final(pos) <= toks.len() + 1,
        *old(pos) < toks.len() ==> *old(pos) < *final(pos),
        extends_under(old(results)@, final(results)@, current_path@),
        ok == block_read(toks_view(toks@), *old(pos) as int, current_path@, chain_view(chain@)).ok,
        *final(pos) == block_read(toks_view(toks@), *old(pos) as int, current_path@, chain_view(chain@)).end,
        meshes_view(final(results)@) == meshes_view(old(results)@) + block_read(
            toks_view(toks@),
            *old(pos) as int,
            current_path@,
            chain_view(chain@),
        ).meshes,
    decreases toks.len() + 1 - *old(pos), 0nat,
{
    let ghost ts = toks_view(toks@);
    let ghost cv = chain_view(chain@);
    let ghost entry = *pos;
    let ghost r0 = results@;
    let ghost whole = block_read(ts, entry as int, current_path@, cv);
    proof {
        assert(meshes_view(results@) + whole.meshes =~= meshes_view(r0) + whole.meshes);
    }
    while *pos < toks.len()
        invariant
            ts == toks_view(toks@),
            cv == chain_view(chain@),
            entry <= *pos <= toks.len() + 1,
            entry == *old(pos),
            r0 == old(results)@,
            toks.len() < usize::MAX,
            extends_under(r0, results@, current_path@),
            whole == block_read(ts, entry as int, current_path@, cv),
            block_read(ts, *pos as int, current_path@, cv).ok == whole.ok,
            block_read(ts, *pos as int, current_path@, cv).end == whole.end,
            meshes_view(results@) + block_read(ts, *pos as int, current_path@, cv).meshes
                == meshes_view(r0) + whole.meshes,
        decreases toks.len() + 1 - *pos,
    {
        let ghost p = *pos as int;
        let ghost res_p = results@;
        if at(toks, *pos, Punct::RBrace) {
            *pos = *pos + 1;
            proof {
                assert(meshes_view(results@) + seq![] =~= meshes_view(results@));
            }
            return true;
        }
        if is_specifier(toks, *pos) {
            *pos = *pos + 1;
            let mut prim_type: Option<String> = None;
            match word_at(toks, *pos) {
                Some(t) => {
                    if !str_equal(t.as_str(), "\"") {
                        prim_type = Some(t.clone());
                        *pos = *pos + 1;
                    }
                },
                None => {},
            }
            let mut prim_name = String::new();
            if *pos < toks.len() {
                match &toks[*pos] {
                    Token::Str(s) => {
                        prim_name = s.clone();
                        *pos = *pos + 1;
                    },
                    Token::Word(s) => {
                        prim_name = s.clone();
                        *pos = *pos + 1;
                    },
                    _ => {},
                }
            }
            skip_parens(toks, pos);
            let child = make_child_path(current_path, &prim_name);
            let is_mesh = match &prim_type {
                Some(t) => str_equal(t.as_str(), "Mesh"),
                None => false,
            };
            proof {
                let h = prim_header(ts, p + 1);
                assert(prim_name@ == h.1);
                assert(*pos == h.2);
                assert(is_mesh == h.0);
            }
            let ghost q = *pos as int;
            if at(toks, *pos, Punct::LBrace) {
                *pos = *pos + 1;
                let ghost before = results@;
                if is_mesh {
                    match parse_mesh_prim(toks, pos, &child, results) {
                        Ok(Some(body)) => {
                            let ghost mid = results@;
                            let m = MeshPrim {
                                path: child,
                                ancestors: copy_chain(chain),
                                local: body.local,
                                points: body.points,
                                face_vertex_counts: body.face_vertex_counts,
                                face_vertex_indices: body.face_vertex_indices,
                            };
                            proof {
                                lemma_extends_trans(r0, before, mid, current_path@, m.path@);
                                lemma_extends_push(r0, mid, m, current_path@);
                            }
                            results.push(m);
                            proof {
                                let mr = mesh_read(ts, q + 1, m.path@, mesh_start());
                                let found = mr.meshes.push(m@);
                                let rest = block_read(ts, *pos as int, current_path@, cv);
                                assert(meshes_view(results@) =~= meshes_view(mid).push(m@));
                                assert(block_read(ts, p, current_path@, cv) == block_after(
                                    ts,
                                    p,
                                    *pos as int,
                                    current_path@,
                                    cv,
                                    found,
                                ));
                                assert(meshes_view(results@) + rest.meshes =~= meshes_view(res_p) + (
                                found + rest.meshes));
                            }
                        },
                        Ok(None) => {
                            proof {
                                lemma_extends_trans(r0, before, results@, current_path@, child@);
                                let mr = mesh_read(ts, q + 1, child@, mesh_start());
                                let rest = block_read(ts, *pos as int, current_path@, cv);
                                assert(block_read(ts, p, current_path@, cv) == block_after(
                                    ts,
                                    p,
                                    *pos as int,
                                    current_path@,
                                    cv,
                                    mr.meshes,
                                ));
                                assert(meshes_view(results@) + rest.meshes =~= meshes_view(res_p) + (
                                mr.meshes + rest.meshes));
                            }
                        },
                        Err(()) => {
                            proof {
                                lemma_extends_trans(r0, before, results@, current_path@, child@);
                            }
                            return false;
                        },
                    }
                } else {
                    let ok = parse_xform_block(toks, pos, &child, chain, results);
                    proof {
                        lemma_extends_trans(r0, before, results@, current_path@, child@);
                    }
                    if !ok {
                        return false;
                    }
                    proof {
                        let x = block_read(
                            ts,
                            q + 1,
                            child@,
                            cv.push(ops_scan(ts, q + 1, 1, no_ops())),
                        );
                        let rest = block_read(ts, *pos as int, current_path@, cv);
                        assert(block_read(ts, p, current_path@, cv) == block_after(
                            ts,
                            p,
                            *pos as int,
                            current_path@,
                            cv,
                            x.meshes,
                        ));
                        assert(meshes_view(results@) + rest.meshes =~= meshes_view(res_p) + (x.meshes
                            + rest.meshes));
                    }
                }
            } else {
                proof {
                    let rest = block_read(ts, *pos as int, current_path@, cv);
                    assert(block_read(ts, p, current_path@, cv) == block_after(
                        ts,
                        p,
                        *pos as int,
                        current_path@,
                        cv,
                        seq![],
                    ));
                    assert(seq![] + rest.meshes =~= rest.meshes);
                }
            }
        } else {
            *pos = *pos + 1;
        }
    }
    proof {
        assert(meshes_view(results@) + seq![] =~= meshes_view(results@));
    }
    true
}

} // verus!
