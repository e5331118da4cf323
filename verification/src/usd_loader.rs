//! Loading meshes from USD files: the USDA text format and fan triangulation.

pub mod lexer;
pub mod parser;

use vstd::prelude::*;
use crate::text::{chars_of, push_all, push_str_chars, string_from_chars};
use lexer::{tokenize, lex_from, toks_view};
use parser::{parse_block, MeshPrim, XformOps, BlockRead, block_read, chain_view, meshes_view, under};

verus! {

/// Declares std's I/O error so that `UsdError` can carry it.
#[verifier::external_type_specification]
#[verifier::external_body]
pub struct ExIoError(std::io::Error);

/// Why loading a USD file failed.
#[derive(Debug)]
pub enum UsdError {
    /// Reading the file failed.
    Io(std::io::Error),
    /// The content could not be read.
    Parse(String),
}

/// The text std's `Display` gives an I/O error (it may include the operating
/// system's description of the error).
#[verifier::external_body]
fn io_error_text(e: &std::io::Error) -> String {
    e.to_string()
}

impl UsdError {
    /// The message shown for this error: `IO error: ...` or `Parse error: ...`.
    pub fn message(&self) -> (s: String)
        ensures
            self matches UsdError::Parse(m) ==> s@ == seq!['P', 'a', 'r', 's', 'e', ' ', 'e', 'r', 'r', 'o', 'r', ':', ' '] + m@,
            self is Io ==> s@.take(10) == seq!['I', 'O', ' ', 'e', 'r', 'r', 'o', 'r', ':', ' '],
    {
        let mut v: Vec<char> = Vec::new();
        match self {
            UsdError::Io(e) => {
                push_str_chars(&mut v, "IO error: ");
                let t = io_error_text(e);
                let tc = chars_of(t.as_str());
                let ghost head = v@;
                push_all(&mut v, &tc);
                proof {
                    reveal_strlit("IO error: ");
                    assert(v@.take(10) =~= head);
                }
            },
            UsdError::Parse(m) => {
                push_str_chars(&mut v, "Parse error: ");
                push_str_chars(&mut v, m.as_str());
                proof {
                    reveal_strlit("Parse error: ");
                }
            },
        }
        let s = string_from_chars(&v);
        proof {
            if self is Io {
                assert(s@.take(10) =~= seq!['I', 'O', ' ', 'e', 'r', 'r', 'o', 'r', ':', ' ']);
            } else {
                assert(s@ =~= seq!['P', 'a', 'r', 's', 'e', ' ', 'e', 'r', 'r', 'o', 'r', ':', ' '] + self->Parse_0@);
            }
        }
        s
    }
}

impl From<std::io::Error> for UsdError {
    /// Wraps an I/O error.
    fn from(e: std::io::Error) -> (r: Self) {
        UsdError::Io(e)
    }
}

impl vstd::std_specs::convert::FromSpecImpl<std::io::Error> for UsdError {
    open spec fn obeys_from_spec() -> bool {
        true
    }

    open spec fn from_spec(v: std::io::Error) -> Self {
        UsdError::Io(v)
    }
}

/// Result of loading USD content.
pub type UsdResult<T> = Result<T, UsdError>;

// ── Triangulation ───────────────────────────────────────────────────────────

/// The first `t` fan triangles of the face whose vertex indices start at
/// `off`: triangle `k` is (first, k-th, (k+1)-th vertex).
pub open spec fn fan(idx: Seq<usize>, off: int, t: nat) -> Seq<usize>
    decreases t,
{
    if t == 0 {
        seq![]
    } else {
        fan(idx, off, (t - 1) as nat) + seq![idx[off], idx[off + t], idx[off + t + 1]]
    }
}

/// Triangles of the face of `n` vertices whose indices start at `off`: none
/// when the face has fewer than three vertices or runs past the indices.
pub open spec fn face_triangles(idx: Seq<usize>, off: int, n: int) -> Seq<usize> {
    if n < 3 || off + n > idx.len() {
        seq![]
    } else {
        fan(idx, off, (n - 2) as nat)
    }
}

/// Sum of the face sizes.
pub open spec fn count_sum(counts: Seq<usize>) -> int
    decreases counts.len(),
{
    if counts.len() == 0 {
        0
    } else {
        count_sum(counts.drop_last()) + counts.last()
    }
}

/// Fan triangulation of a polygon mesh given by face sizes and flattened
/// vertex indices.
pub open spec fn spec_triangulate(counts: Seq<usize>, idx: Seq<usize>) -> Seq<usize>
    decreases counts.len(),
{
    if counts.len() == 0 {
        seq![]
    } else {
        spec_triangulate(counts.drop_last(), idx) + face_triangles(
            idx,
            count_sum(counts.drop_last()),
            counts.last() as int,
        )
    }
}

pub proof fn lemma_count_sum_prefix(c: Seq<usize>, k: int)
    requires
        0 <= k <= c.len(),
    ensures
        0 <= count_sum(c.take(k)) <= count_sum(c),
    decreases c.len(),
{
    if c.len() > 0 {
        if k == c.len() {
            assert(c.take(k) =~= c);
            lemma_count_sum_prefix(c.drop_last(), k - 1);
            assert(c.drop_last().take(k - 1) =~= c.drop_last());
        } else {
            lemma_count_sum_prefix(c.drop_last(), k);
            assert(c.drop_last().take(k) =~= c.take(k));
        }
    }
}

/// Whether the face sizes sum to at most `usize::MAX` (so that
/// `triangulate` can walk them).
pub fn count_sum_fits(counts: &Vec<usize>) -> (b: bool)
    ensures
        b == (count_sum(counts@) <= usize::MAX),
{
    let mut total: usize = 0;
    let mut k: usize = 0;
    assert(counts@.take(0) =~= seq![]);
    while k < counts.len()
        invariant
            k <= counts@.len(),
            total == count_sum(counts@.take(k as int)),
        decreases counts@.len() - k,
    {
        assert(counts@.take(k + 1).drop_last() =~= counts@.take(k as int));
        if counts[k] > usize::MAX - total {
            proof {
                lemma_count_sum_prefix(counts@, k + 1);
            }
            return false;
        }
        total = total + counts[k];
        k = k + 1;
    }
    assert(counts@.take(k as int) =~= counts@);
    true
}

/// Splits every face of at least three vertices into a fan of triangles
/// around its first vertex; faces with fewer vertices, or that run past the
/// end of `indices`, produce nothing.
pub fn triangulate(counts: &Vec<usize>, indices: &Vec<usize>) -> (out: Vec<usize>)
    requires
        count_sum(counts@) <= usize::MAX,
    ensures
        out@ == spec_triangulate(counts@, indices@),
{
    let mut out: Vec<usize> = Vec::new();
    let mut offset: usize = 0;
    let mut k: usize = 0;
    assert(counts@.take(0) =~= seq![]);
    while k < counts.len()
        invariant
            k <= counts.len(),
            count_sum(counts@) <= usize::MAX,
            offset == count_sum(counts@.take(k as int)),
            out@ == spec_triangulate(counts@.take(k as int), indices@),
        decreases counts.len() - k,
    {
        let n = counts[k];
        proof {
            lemma_count_sum_prefix(counts@, k + 1);
            assert(counts@.take(k + 1).drop_last() =~= counts@.take(k as int));
            assert(counts@.take(k + 1).last() == n);
        }
        let ghost base = out@;
        if !(n < 3 || offset + n > indices.len()) {
            let mut i: usize = 1;
            while i < n - 1
                invariant
                    3 <= n,
                    offset + n <= indices.len(),
                    1 <= i <= n - 1,
                    out@ == base + fan(indices@, offset as int, (i - 1) as nat),
                decreases n - 1 - i,
            {
                out.push(indices[offset]);
                out.push(indices[offset + i]);
                out.push(indices[offset + i + 1]);
                i = i + 1;
                assert(out@ =~= base + fan(indices@, offset as int, (i - 1) as nat));
            }
        } else {
            assert(out@ =~= base + seq![]);
        }
        offset = offset + n;
        k = k + 1;
    }
    assert(counts@.take(counts.len() as int) =~= counts@);
    out
}

/// Every index of a fan belongs to its face.
proof fn lemma_fan_within(idx: Seq<usize>, off: int, t: nat, j: int)
    requires
        0 <= j < fan(idx, off, t).len(),
    ensures
        fan(idx, off, t).len() == 3 * t,
        exists|k: int| off <= k <= off + t + 1 && #[trigger] idx[k] == fan(idx, off, t)[j],
    decreases t,
{
    if t > 0 {
        let prev = fan(idx, off, (t - 1) as nat);
        if j < prev.len() {
            lemma_fan_within(idx, off, (t - 1) as nat, j);
            let k = choose|k: int| off <= k <= off + (t - 1) + 1 && #[trigger] idx[k] == prev[j];
            assert(idx[k] == fan(idx, off, t)[j]);
        } else {
            lemma_fan_len(idx, off, (t - 1) as nat);
            let r = j - prev.len();
            if r == 0 {
                assert(idx[off] == fan(idx, off, t)[j]);
            } else if r == 1 {
                assert(idx[off + t] == fan(idx, off, t)[j]);
            } else {
                assert(idx[off + t + 1] == fan(idx, off, t)[j]);
            }
        }
    }
}

proof fn lemma_fan_len(idx: Seq<usize>, off: int, t: nat)
    ensures
        fan(idx, off, t).len() == 3 * t,
    decreases t,
{
    if t > 0 {
        lemma_fan_len(idx, off, (t - 1) as nat);
    }
}

/// Fan triangulation never invents vertex indices: every entry of the
/// result is one of the input indices.
pub proof fn lemma_triangulate_uses_input_indices(counts: Seq<usize>, idx: Seq<usize>, j: int)
    requires
        0 <= j < spec_triangulate(counts, idx).len(),
    ensures
        idx.contains(spec_triangulate(counts, idx)[j]),
    decreases counts.len(),
{
    let prev = spec_triangulate(counts.drop_last(), idx);
    let off = count_sum(counts.drop_last());
    let n = counts.last() as int;
    lemma_count_sum_nonneg(counts.drop_last());
    if j < prev.len() {
        lemma_triangulate_uses_input_indices(counts.drop_last(), idx, j);
        assert(spec_triangulate(counts, idx)[j] == prev[j]);
    } else {
        let f = face_triangles(idx, off, n);
        assert(f.len() > 0);
        let jj = j - prev.len();
        lemma_fan_within(idx, off, (n - 2) as nat, jj);
        let k = choose|k: int| off <= k <= off + (n - 2) + 1 && #[trigger] idx[k] == f[jj];
        assert(spec_triangulate(counts, idx)[j] == f[jj]);
        assert(idx[k] == spec_triangulate(counts, idx)[j]);
        assert(0 <= k < idx.len());
    }
}

proof fn lemma_count_sum_nonneg(c: Seq<usize>)
    ensures
        count_sum(c) >= 0,
    decreases c.len(),
{
    if c.len() > 0 {
        lemma_count_sum_nonneg(c.drop_last());
    }
}

/// Fan triangulation yields whole triangles: its length is a multiple of
/// three.
pub proof fn lemma_triangulate_whole_triangles(counts: Seq<usize>, idx: Seq<usize>)
    ensures
        spec_triangulate(counts, idx).len() % 3 == 0,
    decreases counts.len(),
{
    if counts.len() > 0 {
        lemma_triangulate_whole_triangles(counts.drop_last(), idx);
        let n = counts.last() as int;
        let off = count_sum(counts.drop_last());
        if !(n < 3 || off + n > idx.len()) {
            lemma_fan_len(idx, off, (n - 2) as nat);
        }
    }
}

// ── USDA meshes ─────────────────────────────────────────────────────────────

proof fn lemma_lex_len(s: Seq<char>, i: int)
    requires
        0 <= i <= s.len(),
    ensures
        lex_from(s, i).len() <= s.len() - i,
    decreases s.len() - i,
{
    if i < s.len() {
        lexer::lemma_comment_end_bounds(s, i + 1);
        lexer::lemma_quote_end_bounds(s, i + 1);
        lexer::lemma_number_end_bounds(s, i + 1, false);
        lexer::lemma_word_end_bounds(s, i);
        let c = s[i];
        if c == '#' {
            lemma_lex_len(s, lexer::comment_end(s, i + 1));
        } else if lexer::is_white_space(c) {
            lemma_lex_len(s, i + 1);
        } else if lexer::punct(c) is Some {
            lemma_lex_len(s, i + 1);
        } else if c == '"' {
            let j = lexer::quote_end(s, i + 1);
            let next = if j < s.len() {
                j + 1
            } else {
                j
            };
            lemma_lex_len(s, next);
        } else if lexer::is_digit(c) || c == '-' {
            if c == '-' && !lexer::minus_starts_number(s, i) {
                lemma_lex_len(s, i + 1);
            } else {
                lemma_lex_len(s, lexer::number_end(s, i + 1, false));
            }
        } else {
            lemma_lex_len(s, lexer::word_end(s, i));
        }
    }
}

/// Reading USDA text: its tokens read as prim definitions in the root
/// block `/`, with no enclosing transforms.
pub open spec fn usda_read(src: Seq<char>) -> BlockRead {
    block_read(lex_from(src, 0), 0, seq!['/'], seq![])
}

/// Reads the `Mesh` prims of USDA text, in document order (a mesh after the
/// meshes defined inside it). Reading stalls where a `points` array holds a
/// token that no point rule consumes (such as a word); that is reported as
/// a parse error.
pub fn parse_usda_meshes(src: &str) -> (r: UsdResult<Vec<MeshPrim>>)
    requires
        src@.len() < usize::MAX,
    ensures
        r is Ok <==> usda_read(src@).ok,
        r matches Ok(meshes) ==> meshes_view(meshes@) == usda_read(src@).meshes,
        r matches Ok(meshes) ==> forall|i: int| 0 <= i < meshes.len() ==> under(seq!['/'], #[trigger] meshes[i].path@),
        r matches Ok(meshes) ==> forall|i: int| 0 <= i < meshes.len() ==> (#[trigger] meshes[i]).points.len() > 0,
        r matches Err(e) ==> e is Parse,
{
    let toks = tokenize(src);
    proof {
        lemma_lex_len(src@, 0);
        assert(toks_view(toks@).len() == toks@.len());
    }
    let mut results: Vec<MeshPrim> = Vec::new();
    let mut pos: usize = 0;
    let root = String::from_str("/");
    proof {
        reveal_strlit("/");
        assert(root@ =~= seq!['/']);
    }
    let no_chain: Vec<XformOps> = Vec::new();
    proof {
        assert(chain_view(no_chain@) =~= seq![]);
        assert(meshes_view(results@) =~= seq![]);
    }
    let ok = parse_block(&toks, &mut pos, &root, &no_chain, &mut results);
    proof {
        assert(meshes_view(results@) =~= seq![] + usda_read(src@).meshes);
    }
    if ok {
        Ok(results)
    } else {
        Err(UsdError::Parse(String::from_str("a points array holds a token that is not part of a point")))
    }
}

} // verus!
