use crate::code_generation::{apply_template, filled_template, lemma_named_storages_push, line_count, named_storages, names_distinct, ErrId, StringStorage, TextModel};
use crate::glsl::LibraryCode;
use crate::text::{count_char, lemma_count_char_concat};
use crate::ids::{MatrixId, Wrapper};
use crate::object::{Object, ObjectType, SubspaceType};
use crate::storage2::{default_name, inner_value, named_as, Storage2, StorageElem2, StorageInner};
use crate::text::{chars_of, decimal, has_at, matches_at, push_char, push_decimal, same_text, split_on, split_pieces};
use vstd::prelude::*;

verus! {

/// Which optional parts of the generated shader code are kept.
#[derive(Clone, Copy, Debug, PartialEq, Eq, Structural)]
pub struct ShaderFlags {
    /// Loops count with a variable rather than with a number.
    pub for_prefer_variable: bool,
    pub disable_antialiasing: bool,
    pub disable_camera_teleportation: bool,
    /// The code is for GLSL 3.00 rather than GLSL 1.00.
    pub use_300_version: bool,
}

/// Whether `pattern` occurs in `s`.
pub open spec fn occurs_in(s: Seq<char>, pattern: Seq<char>) -> bool {
    exists|i: int| #[trigger] has_at(s, i, pattern)
}

/// Whether a line of shader code is left out under `f`: a loop written with a number when
/// variables are preferred, or the other way round; antialiasing or camera teleportation
/// code when they are disabled; code for the GLSL version not in use.
pub open spec fn line_skipped(line: Seq<char>, f: ShaderFlags) -> bool {
    ||| occurs_in(line, "!FOR_NUMBER!"@) && f.for_prefer_variable
    ||| occurs_in(line, "!FOR_VARIABLE!"@) && !f.for_prefer_variable
    ||| occurs_in(line, "!ANTIALIASING!"@) && f.disable_antialiasing
    ||| occurs_in(line, "!CAMERA_TELEPORTATION!"@) && f.disable_camera_teleportation
    ||| occurs_in(line, "!GLSL100!"@) && f.use_300_version
    ||| occurs_in(line, "!GLSL300!"@) && !f.use_300_version
}

/// A line without the carriage return that ends it, if one does.
pub open spec fn without_cr(p: Seq<char>) -> Seq<char> {
    if p.len() > 0 && p.last() == '\r' {
        p.drop_last()
    } else {
        p
    }
}

/// The lines of `s` as `str::lines` gives them: split at each line break, a carriage return
/// before a line break dropped, and no empty line after a final line break.
pub open spec fn text_lines(s: Seq<char>) -> Seq<Seq<char>> {
    let pieces = split_pieces(s, seq!['\n']);
    let n = if pieces.len() > 0 && pieces.last().len() == 0 {
        pieces.len() - 1
    } else {
        pieces.len() as int
    };
    Seq::new(
        n as nat,
        |i: int|
            if i < pieces.len() - 1 {
                without_cr(pieces[i])
            } else {
                pieces[i]
            },
    )
}

/// Each of `lines` that is kept under `f`, and a line break after every line, kept or not.
pub open spec fn kept_text(lines: Seq<Seq<char>>, f: ShaderFlags) -> Seq<char>
    decreases lines.len(),
{
    if lines.len() == 0 {
        Seq::empty()
    } else {
        kept_text(lines.drop_last(), f) + (if line_skipped(lines.last(), f) {
            Seq::empty()
        } else {
            lines.last()
        }) + seq!['\n']
    }
}

/// Whether `c` is whitespace in Unicode's sense (the White_Space property), the characters
/// that `char::is_whitespace` accepts and `str::trim` removes.
pub open spec fn is_white_space(c: char) -> bool {
    let u = c as u32;
    ||| 0x9 <= u <= 0xd
    ||| u == 0x20
    ||| u == 0x85
    ||| u == 0xa0
    ||| u == 0x1680
    ||| 0x2000 <= u <= 0x200a
    ||| u == 0x2028
    ||| u == 0x2029
    ||| u == 0x202f
    ||| u == 0x205f
    ||| u == 0x3000
}

/// The index of the first character of `s` from `i` on that is not whitespace, or the
/// length of `s`.
pub open spec fn first_non_white(s: Seq<char>, i: int) -> int
    decreases s.len() - i,
{
    if 0 <= i < s.len() && is_white_space(s[i]) {
        first_non_white(s, i + 1)
    } else {
        i
    }
}

/// The index just after the last character of `s` before `j` that is not whitespace, but
/// not below `low`.
pub open spec fn last_non_white_end(s: Seq<char>, low: int, j: int) -> int
    decreases j - low,
{
    if low < j && j <= s.len() && is_white_space(s[j - 1]) {
        last_non_white_end(s, low, j - 1)
    } else {
        j
    }
}

/// `s` without its leading and trailing whitespace, as `str::trim` gives it.
pub open spec fn trimmed(s: Seq<char>) -> Seq<char> {
    let start = first_non_white(s, 0);
    s.subrange(start, last_non_white_end(s, start, s.len() as int))
}

/// Whether `c` is whitespace in Unicode's sense.
fn white_space(c: char) -> (result: bool)
    ensures
        result == is_white_space(c),
{
    let u = c as u32;
    (0x9 <= u && u <= 0xd) || u == 0x20 || u == 0x85 || u == 0xa0 || u == 0x1680 || (0x2000 <= u && u <= 0x200a)
        || u == 0x2028 || u == 0x2029 || u == 0x202f || u == 0x205f || u == 0x3000
}

proof fn lemma_first_non_white(s: Seq<char>, i: int)
    requires
        0 <= i <= s.len(),
    ensures
        i <= first_non_white(s, i) <= s.len(),
    decreases s.len() - i,
{
    if i < s.len() && is_white_space(s[i]) {
        lemma_first_non_white(s, i + 1);
    }
}

proof fn lemma_last_non_white_end(s: Seq<char>, low: int, j: int)
    requires
        0 <= low <= j <= s.len(),
    ensures
        low <= last_non_white_end(s, low, j) <= j,
    decreases j - low,
{
    if low < j && is_white_space(s[j - 1]) {
        lemma_last_non_white_end(s, low, j - 1);
    }
}

/// `s` without its leading and trailing whitespace.
pub fn trim(s: &str) -> (result: String)
    ensures
        result@ == trimmed(s@),
{
    let v = chars_of(s);
    let n = v.len();
    let mut i: usize = 0;
    proof {
        lemma_first_non_white(v@, 0);
    }
    while i < n && white_space(v[i])
        invariant
            v@ == s@,
            n == v@.len(),
            i <= n,
            first_non_white(v@, i as int) == first_non_white(v@, 0),
        decreases n - i,
    {
        i = i + 1;
    }
    let mut j: usize = n;
    proof {
        lemma_last_non_white_end(v@, i as int, n as int);
    }
    while j > i && white_space(v[j - 1])
        invariant
            v@ == s@,
            n == v@.len(),
            i <= j <= n,
            last_non_white_end(v@, i as int, j as int) == last_non_white_end(v@, i as int, n as int),
        decreases j - i,
    {
        j = j - 1;
    }
    let mut out = String::new();
    let mut k: usize = i;
    while k < j
        invariant
            v@ == s@,
            i <= k <= j <= n,
            n == v@.len(),
            out@ == v@.subrange(i as int, k as int),
        decreases j - k,
    {
        push_char(&mut out, v[k]);
        k = k + 1;
        assert(out@ =~= v@.subrange(i as int, k as int));
    }
    proof {
        assert(out@ =~= v@.subrange(i as int, j as int));
    }
    out
}

/// Whether `marker` occurs in `line`.
fn has_marker(line: &Vec<char>, marker: &Vec<char>) -> (result: bool)
    ensures
        result == occurs_in(line@, marker@),
{
    let mut i: usize = 0;
    while i < line.len()
        invariant
            i <= line@.len(),
            forall|j: int| 0 <= j < i ==> !has_at(line@, j, marker@),
        decreases line@.len() - i,
    {
        if matches_at(line, i, marker) {
            return true;
        }
        i = i + 1;
    }
    if matches_at(line, i, marker) {
        return true;
    }
    assert forall|j: int| !#[trigger] has_at(line@, j, marker@) by {
        if 0 <= j < i {
        }
    }
    false
}

/// Whether `line` is left out under `f`.
fn skip_line(line: &Vec<char>, f: ShaderFlags) -> (result: bool)
    ensures
        result == line_skipped(line@, f),
{
    let number_for = has_marker(line, &chars_of("!FOR_NUMBER!"));
    let variable_for = has_marker(line, &chars_of("!FOR_VARIABLE!"));
    let antialiasing_line = has_marker(line, &chars_of("!ANTIALIASING!"));
    let camera_teleportation_line = has_marker(line, &chars_of("!CAMERA_TELEPORTATION!"));
    let glsl_100 = has_marker(line, &chars_of("!GLSL100!"));
    let glsl_300 = has_marker(line, &chars_of("!GLSL300!"));
    (number_for && f.for_prefer_variable) || (variable_for && !f.for_prefer_variable) || (antialiasing_line
        && f.disable_antialiasing) || (camera_teleportation_line && f.disable_camera_teleportation) || (glsl_100
        && f.use_300_version) || (glsl_300 && !f.use_300_version)
}

/// Leaves out of generated shader code the lines that `f` does not want, keeping a line
/// break for each line, and trims the result.
pub fn filter_shader_lines(text: &str, f: ShaderFlags) -> (result: String)
    ensures
        result@ == trimmed(kept_text(text_lines(text@), f)),
{
    let newline = vec!['\n'];
    assert(newline@ =~= seq!['\n']);
    let pieces = split_on(text, &newline);
    let ghost ps = split_pieces(text@, seq!['\n']);
    let ghost lines = text_lines(text@);
    let n = pieces.len();
    let count = if n > 0 && pieces[n - 1].is_empty() {
        n - 1
    } else {
        n
    };
    assert(count == lines.len());
    let mut out = String::new();
    let mut i: usize = 0;
    while i < count
        invariant
            pieces@.len() == ps.len(),
            forall|k: int| 0 <= k < pieces@.len() ==> (#[trigger] pieces@[k])@ == ps[k],
            n == ps.len(),
            lines == text_lines(text@),
            ps == split_pieces(text@, seq!['\n']),
            count == lines.len(),
            count <= n,
            i <= count,
            out@ == kept_text(lines.take(i as int), f),
        decreases count - i,
    {
        let chars = chars_of(pieces[i]);
        let mut len = chars.len();
        if i + 1 < n && len > 0 && chars[len - 1] == '\r' {
            len = len - 1;
        }
        let mut line: Vec<char> = Vec::new();
        let mut k: usize = 0;
        while k < len
            invariant
                len <= chars@.len(),
                k <= len,
                line@ == chars@.subrange(0, k as int),
            decreases len - k,
        {
            line.push(chars[k]);
            k = k + 1;
        }
        proof {
            assert(line@ == lines[i as int]) by {
                if i + 1 < n && chars@.len() > 0 && chars@.last() == '\r' {
                    assert(chars@.subrange(0, len as int) =~= chars@.drop_last());
                } else {
                    assert(chars@.subrange(0, len as int) =~= chars@);
                }
            }
            assert(lines.take(i + 1).drop_last() =~= lines.take(i as int));
            assert(lines.take(i + 1).last() == lines[i as int]);
        }
        let ghost before = out@;
        if !skip_line(&line, f) {
            let mut j: usize = 0;
            while j < line.len()
                invariant
                    j <= line@.len(),
                    out@ == before + line@.subrange(0, j as int),
                decreases line@.len() - j,
            {
                push_char(&mut out, line[j]);
                j = j + 1;
                assert(out@ =~= before + line@.subrange(0, j as int));
            }
            assert(line@.subrange(0, j as int) =~= line@);
        } else {
            assert(out@ =~= before + Seq::<char>::empty());
        }
        push_char(&mut out, '\n');
        i = i + 1;
    }
    assert(lines.take(count as int) =~= lines);
    trim(out.as_str())
}

/// The name matrix `a` goes by in shader code: its own name, or `id` and its identifier when
/// it is anonymous; `None` when no matrix is chosen or the chosen one is missing.
pub open spec fn matrix_name_of<M: StorageElem2>(m: Map<usize, StorageInner<M>>, a: Option<MatrixId>) -> Option<Seq<char>> {
    match a {
        Some(id) => if m.contains_key(id.0.0) {
            Some(
                match m[id.0.0] {
                    StorageInner::Named(_, n) => n@,
                    StorageInner::Inline(_) => default_name(id.0.0),
                },
            )
        } else {
            None
        },
        None => None,
    }
}

/// Moving the ray into the space of the matrix whose inverse is `inv`.
pub open spec fn transform_ray(inv: Seq<char>) -> Seq<char> {
    "transformed_ray = transform("@ + inv + ", r);\nlen = length(transformed_ray.d);\ntransformed_ray = normalize_ray(transformed_ray);"@
}

/// The test that opens the code of an object seen in space `s` only.
pub open spec fn subspace_open(s: SubspaceType) -> Seq<char> {
    match s {
        SubspaceType::Normal => "if (r.in_subspace == false) {"@,
        SubspaceType::Subspace => "if (r.in_subspace == true) {"@,
        SubspaceType::Both => Seq::empty(),
    }
}

/// What closes the code opened by [`subspace_open`].
pub open spec fn subspace_close(s: SubspaceType) -> Seq<char> {
    match s {
        SubspaceType::Both => Seq::empty(),
        _ => "}"@,
    }
}

/// A boolean as GLSL writes it.
pub open spec fn bool_text(b: bool) -> Seq<char> {
    if b {
        "true"@
    } else {
        "false"@
    }
}

/// The material of side one or two of the portal at position `pos`.
pub open spec fn teleport_material(pos: nat, second: bool) -> Seq<char> {
    "teleport_"@ + decimal(pos) + if second {
        "_2_M"@
    } else {
        "_1_M"@
    }
}

/// A debug view of the matrix named `n`.
pub open spec fn debug_code(n: Seq<char>) -> Seq<char> {
    let inv = n + "_mat_inv"@;
    transform_ray(inv) + "ihit = debug_intersect(transformed_ray);\nihit.hit.t /= len;\n"@
        + "if (nearer(i, ihit)) { i = ihit; i.hit.n = normalize(adjugate("@ + inv + ") * i.hit.n); }\n\n"@
}

/// A flat object at position `pos` placed by the matrix named `n`.
pub open spec fn flat_simple_code(n: Seq<char>, pos: nat) -> Seq<char> {
    "normal = -get_normal("@ + (n + "_mat"@) + ");\n"@ + "hit = plane_intersect(r, "@ + (n + "_mat_inv"@)
        + ", get_normal("@ + (n + "_mat"@) + "));\n"@
        + "if (nearer(i, hit)) { i = process_plane_intersection(i, hit, is_inside_"@ + decimal(pos)
        + "(r.o + r.d * hit.t, hit.u, hit.v, is_collinear(hit.n, normal))); }\n\n"@
}

/// One side of a flat portal at position `pos`, placed by the matrix named `n`.
pub open spec fn flat_portal_side(n: Seq<char>, pos: nat, first: bool) -> Seq<char> {
    "normal = "@ + (if first {
        "-"@
    } else {
        Seq::empty()
    }) + "get_normal("@ + (n + "_mat"@) + ");\n"@ + "hit = plane_intersect(r, "@ + (n + "_mat_inv"@) + ", normal);\n"@
        + "if (nearer(i, hit)) { i = process_portal_intersection(i, hit, is_inside_"@ + decimal(pos)
        + "(r.o + r.d * hit.t, hit.u, hit.v, is_collinear(hit.n, normal), "@ + bool_text(first) + "), "@
        + teleport_material(pos, !first) + "); }\n\n"@
}

/// A complex object at position `pos` placed by the matrix named `n`.
pub open spec fn complex_simple_code(n: Seq<char>, pos: nat) -> Seq<char> {
    transform_ray(n + "_mat_inv"@) + "ihit = intersect_"@ + decimal(pos) + "(transformed_ray);\nihit.hit.t /= len;\n"@
        + "if (nearer(i, ihit)) { i = ihit; i.hit.n = normalize(adjugate("@ + (n + "_mat"@) + ") * i.hit.n); }\n\n"@
}

/// One side of a complex portal at position `pos`, placed by the matrix named `n`.
pub open spec fn complex_portal_side(n: Seq<char>, pos: nat, first: bool) -> Seq<char> {
    let material = teleport_material(pos, !first);
    transform_ray(n + "_mat_inv"@) + "ihit = intersect_"@ + decimal(pos) + "(transformed_ray, "@ + bool_text(first)
        + ");\nihit.hit.t /= len;\n"@
        + "if (nearer(i, ihit) && ihit.material != NOT_INSIDE) { if (ihit.material == TELEPORT) { ihit.material = "@
        + material + "; } if (ihit.material == TELEPORT_SUBSPACE) { ihit.material = "@ + material
        + "; ihit.in_subspace = true; } i = ihit; i.hit.n = normalize(adjugate("@ + (n + "_mat"@)
        + ") * i.hit.n); }\n\n"@
}

/// The code of a surface kind at position `pos`, flat or complex; `None` when a matrix it
/// needs is not chosen or missing.
pub open spec fn kind_code<M: StorageElem2>(m: Map<usize, StorageInner<M>>, kind: ObjectType, pos: nat, flat: bool) -> Option<Seq<char>> {
    match kind {
        ObjectType::Simple(a) => match matrix_name_of(m, a) {
            Some(n) => Some(if flat { flat_simple_code(n, pos) } else { complex_simple_code(n, pos) }),
            None => None,
        },
        ObjectType::Portal(a, b) => match (matrix_name_of(m, a), matrix_name_of(m, b)) {
            (Some(na), Some(nb)) => Some(
                if flat {
                    flat_portal_side(na, pos, true) + flat_portal_side(nb, pos, false)
                } else {
                    complex_portal_side(na, pos, true) + complex_portal_side(nb, pos, false)
                },
            ),
            _ => None,
        },
    }
}

/// The intersection code of object `o` at position `pos`, followed by an empty line; `None`
/// when a matrix it needs is not chosen or missing.
pub open spec fn object_code<M: StorageElem2>(m: Map<usize, StorageInner<M>>, o: Object, pos: nat) -> Option<Seq<char>> {
    match o {
        Object::DebugMatrix(a) => match matrix_name_of(m, a) {
            Some(n) => Some(debug_code(n) + "\n"@),
            None => None,
        },
        Object::Flat { kind, in_subspace, .. } => match kind_code(m, kind, pos, true) {
            Some(c) => Some(subspace_open(in_subspace) + c + subspace_close(in_subspace) + "\n"@),
            None => None,
        },
        Object::Complex { kind, in_subspace, .. } => match kind_code(m, kind, pos, false) {
            Some(c) => Some(subspace_open(in_subspace) + c + subspace_close(in_subspace) + "\n"@),
            None => None,
        },
    }
}

/// The intersection code of `objects`, in order, each at its position; `None` when one of
/// them needs a matrix that is not chosen or missing.
pub open spec fn intersections_text<M: StorageElem2>(m: Map<usize, StorageInner<M>>, objects: Seq<Object>) -> Option<Seq<char>>
    decreases objects.len(),
{
    if objects.len() == 0 {
        Some(Seq::empty())
    } else {
        match (intersections_text(m, objects.drop_last()), object_code(m, objects.last(), (objects.len() - 1) as nat)) {
            (Some(a), Some(b)) => Some(a + b),
            _ => None,
        }
    }
}

/// Whether `w` occurs in `t` as a contiguous piece.
pub open spec fn holds_piece(w: Seq<char>, t: Seq<char>) -> bool {
    exists|i: int| 0 <= i && i + w.len() <= t.len() && #[trigger] t.subrange(i, i + w.len()) == w
}

/// A piece occurs in a text with more text before or after it.
proof fn lemma_holds_piece_concat(w: Seq<char>, a: Seq<char>, b: Seq<char>)
    ensures
        holds_piece(w, a) ==> holds_piece(w, a + b),
        holds_piece(w, b) ==> holds_piece(w, a + b),
        holds_piece(w, w),
{
    if holds_piece(w, a) {
        let i = choose|i: int| 0 <= i && i + w.len() <= a.len() && #[trigger] a.subrange(i, i + w.len()) == w;
        assert((a + b).subrange(i, i + w.len()) =~= a.subrange(i, i + w.len()));
    }
    if holds_piece(w, b) {
        let i = choose|i: int| 0 <= i && i + w.len() <= b.len() && #[trigger] b.subrange(i, i + w.len()) == w;
        assert((a + b).subrange(a.len() + i, a.len() + i + w.len()) =~= b.subrange(i, i + w.len()));
    }
    let z: int = 0;
    assert(w.subrange(z, z + w.len()) =~= w);
}

/// The ray moved into the space of the matrix named `n`, by its inverse.
pub open spec fn ray_moved_by(n: Seq<char>) -> Seq<char> {
    "transformed_ray = transform("@ + (n + "_mat_inv"@)
        + ", r);\nlen = length(transformed_ray.d);\ntransformed_ray = normalize_ray(transformed_ray);"@
}

/// The ray moved into the space of the matrix named `n` and handed to the intersection
/// function of one side of the portal at position `pos`.
pub open spec fn transformed_portal_call(n: Seq<char>, pos: nat, first: bool) -> Seq<char> {
    ray_moved_by(n) + "ihit = intersect_"@ + decimal(pos) + "(transformed_ray, "@ + (if first {
        "true"@
    } else {
        "false"@
    }) + ");\nihit.hit.t /= len;\n"@
}

/// The ray moved into the space of the matrix named `n` and handed to the debug view.
pub open spec fn transformed_debug_call(n: Seq<char>) -> Seq<char> {
    ray_moved_by(n) + "ihit = debug_intersect(transformed_ray);\nihit.hit.t /= len;\n"@
}

/// Each object whose code is among the code of all objects has code of its own.
proof fn lemma_object_code_exists<M: StorageElem2>(m: Map<usize, StorageInner<M>>, objects: Seq<Object>, pos: int)
    requires
        0 <= pos < objects.len(),
        intersections_text(m, objects) is Some,
    ensures
        object_code(m, objects[pos], pos as nat) is Some,
    decreases objects.len(),
{
    let last = objects.len() - 1;
    if pos < last {
        assert(objects.drop_last()[pos] == objects[pos]);
        lemma_object_code_exists(m, objects.drop_last(), pos);
    }
}

/// What the code of one object holds, the code of all the objects holds.
proof fn lemma_object_piece_in_text<M: StorageElem2>(m: Map<usize, StorageInner<M>>, objects: Seq<Object>, pos: int, w: Seq<char>)
    requires
        0 <= pos < objects.len(),
        intersections_text(m, objects) is Some,
        object_code(m, objects[pos], pos as nat) is Some,
        holds_piece(w, object_code(m, objects[pos], pos as nat).unwrap()),
    ensures
        holds_piece(w, intersections_text(m, objects).unwrap()),
    decreases objects.len(),
{
    let last = objects.len() - 1;
    let prefix = intersections_text(m, objects.drop_last());
    let code = object_code(m, objects.last(), last as nat);
    assert(prefix is Some && code is Some);
    if pos < last {
        assert(objects.drop_last()[pos] == objects[pos]);
        lemma_object_piece_in_text(m, objects.drop_last(), pos, w);
    }
    lemma_holds_piece_concat(w, prefix.unwrap(), code.unwrap());
}

/// `w` occurs in `a + w + b`.
proof fn lemma_holds_piece_between(w: Seq<char>, a: Seq<char>, b: Seq<char>)
    ensures
        holds_piece(w, a + w + b),
{
    lemma_holds_piece_concat(w, w, b);
    lemma_holds_piece_concat(w, a, w + b);
    assert(a + w + b =~= a + (w + b));
}

/// Objects placed by matrices are intersected in their matrices' space: the intersection
/// code of the objects hands the ray, moved by the inverse of the object's matrix, to the
/// object's own intersection function (with the side, for each side of a portal), or to the
/// debug view of the matrix; never the unmoved ray.
pub proof fn lemma_objects_use_their_matrices<M: StorageElem2>(m: Map<usize, StorageInner<M>>, objects: Seq<Object>, pos: int)
    requires
        0 <= pos < objects.len(),
        intersections_text(m, objects) is Some,
    ensures
        objects[pos] matches Object::Complex { kind: ObjectType::Simple(a), .. } ==> holds_piece(
            ray_moved_by(matrix_name_of(m, a).unwrap()) + "ihit = intersect_"@ + decimal(pos as nat)
                + "(transformed_ray);\nihit.hit.t /= len;\n"@,
            intersections_text(m, objects).unwrap(),
        ),
        objects[pos] matches Object::Complex { kind: ObjectType::Portal(a, b), .. } ==> holds_piece(
            transformed_portal_call(matrix_name_of(m, a).unwrap(), pos as nat, true),
            intersections_text(m, objects).unwrap(),
        ) && holds_piece(
            transformed_portal_call(matrix_name_of(m, b).unwrap(), pos as nat, false),
            intersections_text(m, objects).unwrap(),
        ),
        objects[pos] matches Object::DebugMatrix(a) ==> holds_piece(
            transformed_debug_call(matrix_name_of(m, a).unwrap()),
            intersections_text(m, objects).unwrap(),
        ),
{
    lemma_object_code_exists(m, objects, pos);
    match objects[pos] {
        Object::Complex { kind, in_subspace, .. } => match kind {
            ObjectType::Simple(a) => lemma_simple_piece(m, objects, pos, a, in_subspace),
            ObjectType::Portal(a, b) => lemma_portal_pieces(m, objects, pos, a, b, in_subspace),
        },
        Object::DebugMatrix(a) => lemma_debug_piece(m, objects, pos, a),
        _ => {},
    }
}

proof fn lemma_simple_piece<M: StorageElem2>(m: Map<usize, StorageInner<M>>, objects: Seq<Object>, pos: int, a: Option<MatrixId>, s: SubspaceType)
    requires
        0 <= pos < objects.len(),
        intersections_text(m, objects) is Some,
        object_code(m, objects[pos], pos as nat) is Some,
        objects[pos] matches Object::Complex { kind: ObjectType::Simple(a2), in_subspace: s2, .. } && a2 == a && s2 == s,
    ensures
        holds_piece(
            ray_moved_by(matrix_name_of(m, a).unwrap()) + "ihit = intersect_"@ + decimal(pos as nat)
                + "(transformed_ray);\nihit.hit.t /= len;\n"@,
            intersections_text(m, objects).unwrap(),
        ),
{
    let code = object_code(m, objects[pos], pos as nat).unwrap();
    let open = subspace_open(s);
    let close = subspace_close(s) + "\n"@;
    let n = matrix_name_of(m, a).unwrap();
    let w = ray_moved_by(n) + "ihit = intersect_"@ + decimal(pos as nat) + "(transformed_ray);\nihit.hit.t /= len;\n"@;
    let rest = "if (nearer(i, ihit)) { i = ihit; i.hit.n = normalize(adjugate("@ + (n + "_mat"@) + ") * i.hit.n); }\n\n"@;
    assert(complex_simple_code(n, pos as nat) =~= w + rest);
    assert(code =~= open + w + (rest + close));
    lemma_holds_piece_between(w, open, rest + close);
    lemma_object_piece_in_text(m, objects, pos, w);
}

proof fn lemma_portal_pieces<M: StorageElem2>(
    m: Map<usize, StorageInner<M>>,
    objects: Seq<Object>,
    pos: int,
    a: Option<MatrixId>,
    b: Option<MatrixId>,
    s: SubspaceType,
)
    requires
        0 <= pos < objects.len(),
        intersections_text(m, objects) is Some,
        object_code(m, objects[pos], pos as nat) is Some,
        objects[pos] matches Object::Complex { kind: ObjectType::Portal(a2, b2), in_subspace: s2, .. } && a2 == a && b2 == b && s2 == s,
    ensures
        holds_piece(transformed_portal_call(matrix_name_of(m, a).unwrap(), pos as nat, true), intersections_text(m, objects).unwrap()),
        holds_piece(transformed_portal_call(matrix_name_of(m, b).unwrap(), pos as nat, false), intersections_text(m, objects).unwrap()),
{
    let p = pos as nat;
    let na = matrix_name_of(m, a).unwrap();
    let nb = matrix_name_of(m, b).unwrap();
    lemma_portal_side_split(na, p, true);
    lemma_portal_side_split(nb, p, false);
    let wa = transformed_portal_call(na, p, true);
    let wb = transformed_portal_call(nb, p, false);
    let ra = portal_side_rest(na, p, true);
    let rb = portal_side_rest(nb, p, false);
    let open = subspace_open(s);
    let close = subspace_close(s) + "\n"@;
    assert(object_code(m, objects[pos], p).unwrap() == open + ((wa + ra) + (wb + rb)) + close);
    lemma_two_pieces(open, wa, ra, wb, rb, close);
    lemma_object_piece_in_text(m, objects, pos, wa);
    lemma_object_piece_in_text(m, objects, pos, wb);
}

/// Both pieces occur in a text made of them with other text around.
proof fn lemma_two_pieces(open: Seq<char>, wa: Seq<char>, ra: Seq<char>, wb: Seq<char>, rb: Seq<char>, close: Seq<char>)
    ensures
        holds_piece(wa, open + ((wa + ra) + (wb + rb)) + close),
        holds_piece(wb, open + ((wa + ra) + (wb + rb)) + close),
{
    assert(open + ((wa + ra) + (wb + rb)) + close =~= open + wa + (ra + (wb + rb) + close));
    assert(open + ((wa + ra) + (wb + rb)) + close =~= (open + (wa + ra)) + wb + (rb + close));
    lemma_holds_piece_between(wa, open, ra + (wb + rb) + close);
    lemma_holds_piece_between(wb, open + (wa + ra), rb + close);
}

/// The plane of the matrix named `n` intersected with the ray, and the hit handed to the
/// `is_inside` function of the flat object at position `pos`.
pub open spec fn plane_call(n: Seq<char>, pos: nat) -> Seq<char> {
    "hit = plane_intersect(r, "@ + (n + "_mat_inv"@) + ", get_normal("@ + (n + "_mat"@) + "));\n"@
        + "if (nearer(i, hit)) { i = process_plane_intersection(i, hit, is_inside_"@ + decimal(pos)
}

/// The plane of the matrix named `n` intersected with the ray, and the hit handed to the
/// `is_inside` function of the flat portal at position `pos`.
pub open spec fn portal_plane_call(n: Seq<char>, pos: nat) -> Seq<char> {
    "get_normal("@ + (n + "_mat"@) + ");\n"@ + "hit = plane_intersect(r, "@ + (n + "_mat_inv"@) + ", normal);\n"@
        + "if (nearer(i, hit)) { i = process_portal_intersection(i, hit, is_inside_"@ + decimal(pos)
}

/// Flat objects are cut from the planes of their own matrices: the intersection code of the
/// objects intersects the ray with the plane of the object's matrix (of each side's matrix,
/// for a portal) and hands the hit to the object's own `is_inside` function.
pub proof fn lemma_flat_objects_use_their_matrices<M: StorageElem2>(m: Map<usize, StorageInner<M>>, objects: Seq<Object>, pos: int)
    requires
        0 <= pos < objects.len(),
        intersections_text(m, objects) is Some,
    ensures
        objects[pos] matches Object::Flat { kind: ObjectType::Simple(a), .. } ==> holds_piece(
            plane_call(matrix_name_of(m, a).unwrap(), pos as nat),
            intersections_text(m, objects).unwrap(),
        ),
        objects[pos] matches Object::Flat { kind: ObjectType::Portal(a, b), .. } ==> holds_piece(
            portal_plane_call(matrix_name_of(m, a).unwrap(), pos as nat),
            intersections_text(m, objects).unwrap(),
        ) && holds_piece(portal_plane_call(matrix_name_of(m, b).unwrap(), pos as nat), intersections_text(m, objects).unwrap()),
{
    lemma_object_code_exists(m, objects, pos);
    match objects[pos] {
        Object::Flat { kind, in_subspace, .. } => match kind {
            ObjectType::Simple(a) => lemma_flat_simple_piece(m, objects, pos, a, in_subspace),
            ObjectType::Portal(a, b) => lemma_flat_portal_pieces(m, objects, pos, a, b, in_subspace),
        },
        _ => {},
    }
}

proof fn lemma_flat_simple_piece<M: StorageElem2>(m: Map<usize, StorageInner<M>>, objects: Seq<Object>, pos: int, a: Option<MatrixId>, s: SubspaceType)
    requires
        0 <= pos < objects.len(),
        intersections_text(m, objects) is Some,
        object_code(m, objects[pos], pos as nat) is Some,
        objects[pos] matches Object::Flat { kind: ObjectType::Simple(a2), in_subspace: s2, .. } && a2 == a && s2 == s,
    ensures
        holds_piece(plane_call(matrix_name_of(m, a).unwrap(), pos as nat), intersections_text(m, objects).unwrap()),
{
    let p = pos as nat;
    let n = matrix_name_of(m, a).unwrap();
    let w = plane_call(n, p);
    let front = "normal = -get_normal("@ + (n + "_mat"@) + ");\n"@;
    let back = "(r.o + r.d * hit.t, hit.u, hit.v, is_collinear(hit.n, normal))); }\n\n"@;
    let open = subspace_open(s);
    let close = subspace_close(s) + "\n"@;
    assert(flat_simple_code(n, p) =~= front + w + back);
    assert(object_code(m, objects[pos], p).unwrap() == open + (front + w + back) + close);
    lemma_holds_piece_between(w, front, back);
    lemma_holds_piece_grows(w, front + w + back, open, close);
    lemma_object_piece_in_text(m, objects, pos, w);
}

proof fn lemma_flat_portal_pieces<M: StorageElem2>(
    m: Map<usize, StorageInner<M>>,
    objects: Seq<Object>,
    pos: int,
    a: Option<MatrixId>,
    b: Option<MatrixId>,
    s: SubspaceType,
)
    requires
        0 <= pos < objects.len(),
        intersections_text(m, objects) is Some,
        object_code(m, objects[pos], pos as nat) is Some,
        objects[pos] matches Object::Flat { kind: ObjectType::Portal(a2, b2), in_subspace: s2, .. } && a2 == a && b2 == b && s2 == s,
    ensures
        holds_piece(portal_plane_call(matrix_name_of(m, a).unwrap(), pos as nat), intersections_text(m, objects).unwrap()),
        holds_piece(portal_plane_call(matrix_name_of(m, b).unwrap(), pos as nat), intersections_text(m, objects).unwrap()),
{
    let p = pos as nat;
    let na = matrix_name_of(m, a).unwrap();
    let nb = matrix_name_of(m, b).unwrap();
    let sa = flat_portal_side(na, p, true);
    let sb = flat_portal_side(nb, p, false);
    let open = subspace_open(s);
    let close = subspace_close(s) + "\n"@;
    assert(object_code(m, objects[pos], p).unwrap() == open + (sa + sb) + close);
    lemma_flat_portal_split(na, p, true);
    lemma_flat_portal_split(nb, p, false);
    lemma_side_piece(na, p, true);
    lemma_side_piece(nb, p, false);
    lemma_holds_piece_grows(portal_plane_call(na, p), sa, open, sb + close);
    lemma_holds_piece_grows(portal_plane_call(nb, p), sb, open + sa, close);
    assert(open + sa + (sb + close) =~= open + (sa + sb) + close);
    assert(open + sa + sb + close =~= open + (sa + sb) + close);
    lemma_object_piece_in_text(m, objects, pos, portal_plane_call(na, p));
    lemma_object_piece_in_text(m, objects, pos, portal_plane_call(nb, p));
}

proof fn lemma_side_piece(n: Seq<char>, pos: nat, first: bool)
    ensures
        holds_piece(portal_plane_call(n, pos), flat_portal_side(n, pos, first)),
{
    lemma_flat_portal_split(n, pos, first);
    let f = "normal = "@ + (if first {
        "-"@
    } else {
        Seq::<char>::empty()
    });
    lemma_holds_piece_between(portal_plane_call(n, pos), f, flat_portal_back(n, pos, first));
}

/// What follows the plane call in the code of one side of a flat portal.
spec fn flat_portal_back(n: Seq<char>, pos: nat, first: bool) -> Seq<char> {
    "(r.o + r.d * hit.t, hit.u, hit.v, is_collinear(hit.n, normal), "@ + bool_text(first) + "), "@
        + teleport_material(pos, !first) + "); }\n\n"@
}

proof fn lemma_flat_portal_split(n: Seq<char>, pos: nat, first: bool)
    ensures
        flat_portal_side(n, pos, first) == ("normal = "@ + (if first {
            "-"@
        } else {
            Seq::<char>::empty()
        })) + portal_plane_call(n, pos) + flat_portal_back(n, pos, first),
{
    let f = "normal = "@ + (if first {
        "-"@
    } else {
        Seq::<char>::empty()
    });
    assert(flat_portal_side(n, pos, first) =~= f + portal_plane_call(n, pos) + flat_portal_back(n, pos, first));
}

/// A piece of a text is a piece of the text with more around it.
proof fn lemma_holds_piece_grows(w: Seq<char>, t: Seq<char>, a: Seq<char>, b: Seq<char>)
    requires
        holds_piece(w, t),
    ensures
        holds_piece(w, a + t + b),
{
    lemma_holds_piece_concat(w, a, t);
    lemma_holds_piece_concat(w, a + t, b);
}

/// What follows the call in the code of one side of a complex portal.
spec fn portal_side_rest(n: Seq<char>, pos: nat, first: bool) -> Seq<char> {
    let material = teleport_material(pos, !first);
    "if (nearer(i, ihit) && ihit.material != NOT_INSIDE) { if (ihit.material == TELEPORT) { ihit.material = "@
        + material + "; } if (ihit.material == TELEPORT_SUBSPACE) { ihit.material = "@ + material
        + "; ihit.in_subspace = true; } i = ihit; i.hit.n = normalize(adjugate("@ + (n + "_mat"@)
        + ") * i.hit.n); }\n\n"@
}

proof fn lemma_portal_side_split(n: Seq<char>, pos: nat, first: bool)
    ensures
        complex_portal_side(n, pos, first) == transformed_portal_call(n, pos, first) + portal_side_rest(n, pos, first),
{
    assert(complex_portal_side(n, pos, first) =~= transformed_portal_call(n, pos, first) + portal_side_rest(n, pos, first));
}

proof fn lemma_debug_piece<M: StorageElem2>(m: Map<usize, StorageInner<M>>, objects: Seq<Object>, pos: int, a: Option<MatrixId>)
    requires
        0 <= pos < objects.len(),
        intersections_text(m, objects) is Some,
        object_code(m, objects[pos], pos as nat) is Some,
        objects[pos] == Object::DebugMatrix(a),
    ensures
        holds_piece(transformed_debug_call(matrix_name_of(m, a).unwrap()), intersections_text(m, objects).unwrap()),
{
    let code = object_code(m, objects[pos], pos as nat).unwrap();
    let n = matrix_name_of(m, a).unwrap();
    let w = transformed_debug_call(n);
    let d = debug_code(n);
    assert(d.subrange(0, w.len() as int) =~= w);
    let rest = d.subrange(w.len() as int, d.len() as int);
    assert(d =~= w + rest);
    assert(code =~= Seq::<char>::empty() + w + (rest + "\n"@));
    lemma_holds_piece_between(w, Seq::<char>::empty(), rest + "\n"@);
    lemma_object_piece_in_text(m, objects, pos, w);
}

/// The listed objects of a storage, in order.
pub open spec fn listed_objects(objects: &Storage2<Object>) -> Seq<Object> {
    objects.order().map_values(|k: usize| inner_value(objects.elements()[k]))
}

/// The name of matrix `a`, if it is chosen and there.
fn matrix_name<M: StorageElem2>(a: Option<MatrixId>, matrices: &Storage2<M>) -> (result: Option<String>)
    ensures
        match result {
            Some(n) => matrix_name_of(matrices.elements(), a) == Some(n@),
            None => matrix_name_of(matrices.elements(), a) is None,
        },
{
    match a {
        Some(id) => {
            let w = M::IdWrapper::wrap(id.un_wrap());
            match Object::get_name(w, matrices) {
                Some(name) => Some(name.0),
                None => None,
            }
        },
        None => None,
    }
}

/// Appends `pos` in decimal.
fn append_pos(out: &mut String, pos: usize)
    ensures
        final(out)@ == old(out)@ + decimal(pos as nat),
{
    push_decimal(out, pos);
}

fn append_transform(out: &mut String, inv: &String)
    ensures
        final(out)@ == old(out)@ + transform_ray(inv@),
{
    out.append("transformed_ray = transform(");
    out.append(inv.as_str());
    out.append(", r);\nlen = length(transformed_ray.d);\ntransformed_ray = normalize_ray(transformed_ray);");
    assert(final(out)@ =~= old(out)@ + transform_ray(inv@));
}

fn append_teleport_material(out: &mut String, pos: usize, second: bool)
    ensures
        final(out)@ == old(out)@ + teleport_material(pos as nat, second),
{
    out.append("teleport_");
    push_decimal(out, pos);
    if second {
        out.append("_2_M");
    } else {
        out.append("_1_M");
    }
    assert(final(out)@ =~= old(out)@ + teleport_material(pos as nat, second));
}

fn with_suffix(n: &String, suffix: &str) -> (result: String)
    ensures
        result@ == n@ + suffix@,
{
    let mut r = String::from_str(n.as_str());
    r.append(suffix);
    r
}

fn debug_text(n: &String) -> (result: String)
    ensures
        result@ == debug_code(n@),
{
    let inv = with_suffix(n, "_mat_inv");
    let mut out = String::new();
    append_transform(&mut out, &inv);
    out.append("ihit = debug_intersect(transformed_ray);\nihit.hit.t /= len;\n");
    out.append("if (nearer(i, ihit)) { i = ihit; i.hit.n = normalize(adjugate(");
    out.append(inv.as_str());
    out.append(") * i.hit.n); }\n\n");
    assert(out@ =~= debug_code(n@));
    out
}

fn flat_simple_text(n: &String, pos: usize) -> (result: String)
    ensures
        result@ == flat_simple_code(n@, pos as nat),
{
    let normal = with_suffix(n, "_mat");
    let inv = with_suffix(n, "_mat_inv");
    let mut out = String::new();
    out.append("normal = -get_normal(");
    out.append(normal.as_str());
    out.append(");\n");
    out.append("hit = plane_intersect(r, ");
    out.append(inv.as_str());
    out.append(", get_normal(");
    out.append(normal.as_str());
    out.append("));\n");
    out.append("if (nearer(i, hit)) { i = process_plane_intersection(i, hit, is_inside_");
    append_pos(&mut out, pos);
    out.append("(r.o + r.d * hit.t, hit.u, hit.v, is_collinear(hit.n, normal))); }\n\n");
    assert(out@ =~= flat_simple_code(n@, pos as nat));
    out
}

fn flat_portal_text(out: &mut String, n: &String, pos: usize, first: bool)
    ensures
        final(out)@ == old(out)@ + flat_portal_side(n@, pos as nat, first),
{
    let normal = with_suffix(n, "_mat");
    let inv = with_suffix(n, "_mat_inv");
    let ghost start = out@;
    out.append("normal = ");
    if first {
        out.append("-");
    }
    out.append("get_normal(");
    out.append(normal.as_str());
    out.append(");\n");
    out.append("hit = plane_intersect(r, ");
    out.append(inv.as_str());
    out.append(", normal);\n");
    out.append("if (nearer(i, hit)) { i = process_portal_intersection(i, hit, is_inside_");
    append_pos(out, pos);
    out.append("(r.o + r.d * hit.t, hit.u, hit.v, is_collinear(hit.n, normal), ");
    if first {
        out.append("true");
    } else {
        out.append("false");
    }
    out.append("), ");
    append_teleport_material(out, pos, !first);
    out.append("); }\n\n");
    assert(final(out)@ =~= start + flat_portal_side(n@, pos as nat, first));
}

fn complex_simple_text(n: &String, pos: usize) -> (result: String)
    ensures
        result@ == complex_simple_code(n@, pos as nat),
{
    let normal = with_suffix(n, "_mat");
    let inv = with_suffix(n, "_mat_inv");
    let mut out = String::new();
    append_transform(&mut out, &inv);
    out.append("ihit = intersect_");
    append_pos(&mut out, pos);
    out.append("(transformed_ray);\nihit.hit.t /= len;\n");
    out.append("if (nearer(i, ihit)) { i = ihit; i.hit.n = normalize(adjugate(");
    out.append(normal.as_str());
    out.append(") * i.hit.n); }\n\n");
    assert(out@ =~= complex_simple_code(n@, pos as nat));
    out
}

fn complex_portal_text(out: &mut String, n: &String, pos: usize, first: bool)
    ensures
        final(out)@ == old(out)@ + complex_portal_side(n@, pos as nat, first),
{
    let normal = with_suffix(n, "_mat");
    let inv = with_suffix(n, "_mat_inv");
    let ghost start = out@;
    append_transform(out, &inv);
    out.append("ihit = intersect_");
    append_pos(out, pos);
    out.append("(transformed_ray, ");
    if first {
        out.append("true");
    } else {
        out.append("false");
    }
    out.append(");\nihit.hit.t /= len;\n");
    out.append("if (nearer(i, ihit) && ihit.material != NOT_INSIDE) { if (ihit.material == TELEPORT) { ihit.material = ");
    append_teleport_material(out, pos, !first);
    out.append("; } if (ihit.material == TELEPORT_SUBSPACE) { ihit.material = ");
    append_teleport_material(out, pos, !first);
    out.append("; ihit.in_subspace = true; } i = ihit; i.hit.n = normalize(adjugate(");
    out.append(normal.as_str());
    out.append(") * i.hit.n); }\n\n");
    assert(final(out)@ =~= start + complex_portal_side(n@, pos as nat, first));
}

/// The code of a surface kind at position `pos`, flat or complex.
fn kind_text<M: StorageElem2>(kind: &ObjectType, pos: usize, flat: bool, matrices: &Storage2<M>) -> (result: Option<String>)
    ensures
        match result {
            Some(c) => kind_code(matrices.elements(), *kind, pos as nat, flat) == Some(c@),
            None => kind_code(matrices.elements(), *kind, pos as nat, flat) is None,
        },
{
    match kind {
        ObjectType::Simple(a) => {
            let n = matrix_name(*a, matrices)?;
            if flat {
                Some(flat_simple_text(&n, pos))
            } else {
                Some(complex_simple_text(&n, pos))
            }
        },
        ObjectType::Portal(a, b) => {
            let na = matrix_name(*a, matrices);
            let nb = matrix_name(*b, matrices);
            match (na, nb) {
                (Some(na), Some(nb)) => {
                    let mut out = String::new();
                    if flat {
                        flat_portal_text(&mut out, &na, pos, true);
                        flat_portal_text(&mut out, &nb, pos, false);
                    } else {
                        complex_portal_text(&mut out, &na, pos, true);
                        complex_portal_text(&mut out, &nb, pos, false);
                    }
                    assert(out@ =~= kind_code(matrices.elements(), *kind, pos as nat, flat).unwrap());
                    Some(out)
                },
                _ => None,
            }
        },
    }
}

fn subspace_open_text(out: &mut String, s: SubspaceType)
    ensures
        final(out)@ == old(out)@ + subspace_open(s),
{
    match s {
        SubspaceType::Normal => out.append("if (r.in_subspace == false) {"),
        SubspaceType::Subspace => out.append("if (r.in_subspace == true) {"),
        SubspaceType::Both => {
            assert(out@ =~= out@ + Seq::<char>::empty());
        },
    }
}

fn subspace_close_text(out: &mut String, s: SubspaceType)
    ensures
        final(out)@ == old(out)@ + subspace_close(s),
{
    match s {
        SubspaceType::Both => {
            assert(out@ =~= out@ + Seq::<char>::empty());
        },
        _ => out.append("}"),
    }
}

/// The intersection code of object `o` at position `pos`.
fn object_text<M: StorageElem2>(o: &Object, pos: usize, matrices: &Storage2<M>) -> (result: Option<String>)
    ensures
        match result {
            Some(c) => object_code(matrices.elements(), *o, pos as nat) == Some(c@),
            None => object_code(matrices.elements(), *o, pos as nat) is None,
        },
{
    match o {
        Object::DebugMatrix(a) => {
            let n = matrix_name(*a, matrices)?;
            let mut out = debug_text(&n);
            out.append("\n");
            Some(out)
        },
        Object::Flat { kind, in_subspace, .. } => {
            let c = kind_text(kind, pos, true, matrices)?;
            let mut out = String::new();
            subspace_open_text(&mut out, *in_subspace);
            out.append(c.as_str());
            subspace_close_text(&mut out, *in_subspace);
            out.append("\n");
            assert(out@ =~= object_code(matrices.elements(), *o, pos as nat).unwrap());
            Some(out)
        },
        Object::Complex { kind, in_subspace, .. } => {
            let c = kind_text(kind, pos, false, matrices)?;
            let mut out = String::new();
            subspace_open_text(&mut out, *in_subspace);
            out.append(c.as_str());
            subspace_close_text(&mut out, *in_subspace);
            out.append("\n");
            assert(out@ =~= object_code(matrices.elements(), *o, pos as nat).unwrap());
            Some(out)
        },
    }
}

/// The code that intersects a ray with each listed object in turn, at its position in the
/// list; `None` when a listed object needs a matrix that is not chosen or not in `matrices`.
/// Only the names of the entries of `matrices` are read.
pub fn intersections_code<M: StorageElem2>(objects: &Storage2<Object>, matrices: &Storage2<M>) -> (result: Option<String>)
    requires
        objects.wf(),
    ensures
        match result {
            Some(c) => intersections_text(matrices.elements(), listed_objects(objects)) == Some(c@),
            None => intersections_text(matrices.elements(), listed_objects(objects)) is None,
        },
{
    let listed = objects.visible_elements();
    let ghost objs = listed_objects(objects);
    let mut out = String::new();
    let mut pos: usize = 0;
    proof {
        assert(objs.take(0) =~= Seq::<Object>::empty());
    }
    while pos < listed.len()
        invariant
            objects.wf(),
            objs == listed_objects(objects),
            listed@.len() == objects.order().len(),
            forall|i: int| 0 <= i < listed@.len() ==> (#[trigger] listed@[i]).0.id_of().0 == objects.order()[i],
            pos <= listed@.len(),
            intersections_text(matrices.elements(), objs.take(pos as int)) == Some(out@),
        decreases listed@.len() - pos,
    {
        proof {
            objects.lemma_listed_are_named();
            assert(objects.order().contains(objects.order()[pos as int]));
        }
        let o = objects.get_original(listed[pos].0).unwrap();
        proof {
            assert(objs.take(pos + 1).drop_last() =~= objs.take(pos as int));
            assert(objs.take(pos + 1).last() == *o);
        }
        match object_text(o, pos, matrices) {
            Some(c) => {
                out.append(c.as_str());
            },
            None => {
                proof {
                    lemma_intersections_none_prefix(matrices.elements(), objs, pos + 1);
                }
                return None;
            },
        }
        pos = pos + 1;
    }
    assert(objs.take(pos as int) =~= objs);
    Some(out)
}

/// Once the code of some prefix of the objects fails, the code of all of them fails.
proof fn lemma_intersections_none_prefix<M: StorageElem2>(m: Map<usize, StorageInner<M>>, objs: Seq<Object>, n: int)
    requires
        0 <= n <= objs.len(),
        intersections_text(m, objs.take(n)) is None,
    ensures
        intersections_text(m, objs) is None,
    decreases objs.len() - n,
{
    if n < objs.len() {
        assert(objs.take(n + 1).drop_last() =~= objs.take(n));
        lemma_intersections_none_prefix(m, objs, n + 1);
    } else {
        assert(objs.take(n) =~= objs);
    }
}

/// The code that picks the colour where no object is hit: the skybox texture named `skybox`
/// seen in the ray's direction, or a plain grey.
pub open spec fn skybox_text(skybox: Option<Seq<char>>) -> Seq<char> {
    match skybox {
        Some(t) => "vec4 rd2 = _camera_mul_inv * r.d;"@ + "float u = atan(rd2.z, rd2.x);"@
            + "float v = atan(sqrt(rd2.x * rd2.x + rd2.z * rd2.z), rd2.y);"@ + "vec3 not_found_color = sqrvec(texture("@ + t
            + "_tex, vec2((u/PI+1.)/2., v/PI)).rgb);"@,
        None => "vec3 not_found_color = color(0.6, 0.6, 0.6);"@,
    }
}

/// The skybox code for the texture named `skybox`, if there is one.
pub fn skybox_processing(skybox: &Option<String>) -> (result: String)
    ensures
        result@ == skybox_text(
            match skybox {
                Some(t) => Some(t@),
                None => None,
            },
        ),
{
    let mut out = String::new();
    match skybox {
        Some(t) => {
            out.append("vec4 rd2 = _camera_mul_inv * r.d;");
            out.append("float u = atan(rd2.z, rd2.x);");
            out.append("float v = atan(sqrt(rd2.x * rd2.x + rd2.z * rd2.z), rd2.y);");
            out.append("vec3 not_found_color = sqrvec(texture(");
            out.append(t.as_str());
            out.append("_tex, vec2((u/PI+1.)/2., v/PI)).rgb);");
            assert(out@ =~= skybox_text(Some(t@)));
        },
        None => {
            out.append("vec3 not_found_color = color(0.6, 0.6, 0.6);");
            assert(out@ =~= skybox_text(None));
        },
    }
    out
}

/// The code that intersects a ray with the first `n` intersection materials in turn and keeps
/// the nearest hit.
pub open spec fn intersection_material_text(n: nat) -> Seq<char>
    decreases n,
{
    if n == 0 {
        Seq::empty()
    } else {
        intersection_material_text((n - 1) as nat) + "hit = intersect_material_"@ + decimal((n - 1) as nat) + "(r);\n"@
            + "if (nearer(result.scene.hit, hit.scene.hit)) { result = hit; }\n\n"@
    }
}

/// The code that intersects a ray with each listed intersection material in turn.
pub fn intersection_material_processing<T: StorageElem2>(intersection_materials: &Storage2<T>) -> (result: String)
    ensures
        result@ == intersection_material_text(intersection_materials.order().len()),
{
    let n = intersection_materials.len();
    let mut out = String::new();
    let mut pos: usize = 0;
    while pos < n
        invariant
            pos <= n,
            out@ == intersection_material_text(pos as nat),
        decreases n - pos,
    {
        let ghost before = out@;
        out.append("hit = intersect_material_");
        push_decimal(&mut out, pos);
        out.append("(r);\n");
        out.append("if (nearer(result.scene.hit, hit.scene.hit)) { result = hit; }\n\n");
        assert(out@ =~= intersection_material_text((pos + 1) as nat));
        pos = pos + 1;
    }
    out
}

/// `a` and `b` agree on their first `k` characters, and `a` comes first from there: it ends
/// where `b` goes on, or its next character is smaller.
pub open spec fn first_before_at(a: Seq<char>, b: Seq<char>, k: int) -> bool {
    &&& 0 <= k <= a.len()
    &&& k <= b.len()
    &&& a.subrange(0, k) == b.subrange(0, k)
    &&& (k == a.len() && k < b.len()) || (k < a.len() && k < b.len() && a[k] < b[k])
}

/// Whether `a` comes before `b` in the order of strings: character by character, a string
/// before the longer strings it begins.
pub open spec fn text_before(a: Seq<char>, b: Seq<char>) -> bool {
    exists|k: int| #[trigger] first_before_at(a, b, k)
}

/// Whether the strings of `s` are in increasing order, each once.
pub open spec fn strictly_sorted(s: Seq<Seq<char>>) -> bool {
    forall|i: int, j: int| 0 <= i < j < s.len() ==> text_before(#[trigger] s[i], #[trigger] s[j])
}

/// No string comes before itself.
pub proof fn lemma_text_before_irreflexive(a: Seq<char>)
    ensures
        !text_before(a, a),
{
}

/// Of two different strings, one comes before the other.
pub proof fn lemma_text_before_total(a: Seq<char>, b: Seq<char>)
    requires
        a != b,
    ensures
        text_before(a, b) || text_before(b, a),
{
    assert(a.subrange(0, 0) =~= b.subrange(0, 0));
    let k = first_difference(a, b, 0);
    if k < a.len() && k < b.len() {
        if a[k] < b[k] {
            assert(first_before_at(a, b, k));
        } else {
            assert(first_before_at(b, a, k));
        }
    } else if k == a.len() && k < b.len() {
        assert(first_before_at(a, b, k));
    } else if k == b.len() && k < a.len() {
        assert(first_before_at(b, a, k));
    } else {
        assert(a =~= a.subrange(0, k));
        assert(b =~= b.subrange(0, k));
    }
}

/// The first index from `i` on where `a` and `b` differ or one of them ends, given that
/// they agree before `i`.
proof fn first_difference(a: Seq<char>, b: Seq<char>, i: int) -> (k: int)
    requires
        0 <= i <= a.len(),
        i <= b.len(),
        a.subrange(0, i) == b.subrange(0, i),
    ensures
        i <= k <= a.len(),
        k <= b.len(),
        a.subrange(0, k) == b.subrange(0, k),
        k == a.len() || k == b.len() || a[k] != b[k],
    decreases a.len() - i,
{
    if i < a.len() && i < b.len() && a[i] == b[i] {
        assert(a.subrange(0, i + 1) =~= a.subrange(0, i).push(a[i]));
        assert(b.subrange(0, i + 1) =~= b.subrange(0, i).push(b[i]));
        first_difference(a, b, i + 1)
    } else {
        i
    }
}

/// The order of strings is transitive.
pub proof fn lemma_text_before_transitive(a: Seq<char>, b: Seq<char>, c: Seq<char>)
    requires
        text_before(a, b),
        text_before(b, c),
    ensures
        text_before(a, c),
{
    let k1 = choose|k: int| #[trigger] first_before_at(a, b, k);
    let k2 = choose|k: int| #[trigger] first_before_at(b, c, k);
    if k1 < k2 {
        assert(a.subrange(0, k1) =~= c.subrange(0, k1)) by {
            assert forall|j: int| 0 <= j < k1 implies a[j] == c[j] by {
                assert(a.subrange(0, k1)[j] == b.subrange(0, k1)[j]);
                assert(b.subrange(0, k2)[j] == c.subrange(0, k2)[j]);
            }
        }
        if k1 < a.len() {
            assert(b.subrange(0, k2)[k1] == c.subrange(0, k2)[k1]);
        }
        assert(first_before_at(a, c, k1));
    } else if k2 < k1 {
        assert(a.subrange(0, k2) =~= c.subrange(0, k2)) by {
            assert forall|j: int| 0 <= j < k2 implies a[j] == c[j] by {
                assert(a.subrange(0, k1)[j] == b.subrange(0, k1)[j]);
                assert(b.subrange(0, k2)[j] == c.subrange(0, k2)[j]);
            }
        }
        assert(a.subrange(0, k1)[k2] == b.subrange(0, k1)[k2]);
        assert(first_before_at(a, c, k2));
    } else {
        assert(a.subrange(0, k1) =~= c.subrange(0, k1)) by {
            assert forall|j: int| 0 <= j < k1 implies a[j] == c[j] by {
                assert(a.subrange(0, k1)[j] == b.subrange(0, k1)[j]);
                assert(b.subrange(0, k2)[j] == c.subrange(0, k2)[j]);
            }
        }
        assert(first_before_at(a, c, k1));
    }
}

/// Whether `a` comes before `b`.
fn is_before(a: &str, b: &str) -> (result: bool)
    ensures
        result == text_before(a@, b@),
{
    let x = chars_of(a);
    let y = chars_of(b);
    let mut i: usize = 0;
    while i < x.len() && i < y.len() && x[i] == y[i]
        invariant
            x@ == a@,
            y@ == b@,
            i <= x@.len(),
            i <= y@.len(),
            x@.subrange(0, i as int) == y@.subrange(0, i as int),
        decreases x@.len() - i,
    {
        assert(x@.subrange(0, i + 1) =~= x@.subrange(0, i as int).push(x@[i as int]));
        assert(y@.subrange(0, i + 1) =~= y@.subrange(0, i as int).push(y@[i as int]));
        i = i + 1;
    }
    let result = (i == x.len() && i < y.len()) || (i < x.len() && i < y.len() && x[i] < y[i]);
    if result {
        assert(first_before_at(a@, b@, i as int));
    } else {
        assert forall|k: int| !#[trigger] first_before_at(a@, b@, k) by {
            if first_before_at(a@, b@, k) {
                if k < i {
                    assert(x@.subrange(0, i as int)[k] == y@.subrange(0, i as int)[k]);
                } else if k > i {
                    assert(a@.subrange(0, k)[i as int] == b@.subrange(0, k)[i as int]);
                }
            }
        }
    }
    result
}

/// Two lists of strings in increasing order that hold the same strings are the same list.
pub proof fn lemma_sorted_unique(a: Seq<Seq<char>>, b: Seq<Seq<char>>)
    requires
        strictly_sorted(a),
        strictly_sorted(b),
        forall|t: Seq<char>| a.contains(t) <==> b.contains(t),
    ensures
        a == b,
    decreases a.len() + b.len(),
{
    if a.len() == 0 {
        if b.len() > 0 {
            assert(b.contains(b[0]));
        }
        assert(a =~= b);
    } else if b.len() == 0 {
        assert(a.contains(a[0]));
    } else {
        let la = a[a.len() - 1];
        let lb = b[b.len() - 1];
        assert(a.contains(la));
        assert(b.contains(lb));
        let i = choose|i: int| 0 <= i < a.len() && a[i] == lb;
        let j = choose|j: int| 0 <= j < b.len() && b[j] == la;
        if la != lb {
            if i < a.len() - 1 && j < b.len() - 1 {
                assert(text_before(a[i], a[a.len() - 1]));
                assert(text_before(b[j], b[b.len() - 1]));
                lemma_text_before_transitive(la, lb, la);
                lemma_text_before_irreflexive(la);
            } else if i == a.len() - 1 {
                assert(la == lb);
            } else {
                assert(la == lb);
            }
        }
        let a2 = a.drop_last();
        let b2 = b.drop_last();
        assert(strictly_sorted(a2)) by {
            assert forall|x: int, y: int| 0 <= x < y < a2.len() implies text_before(#[trigger] a2[x], #[trigger] a2[y]) by {
                assert(a2[x] == a[x] && a2[y] == a[y]);
            }
        }
        assert(strictly_sorted(b2)) by {
            assert forall|x: int, y: int| 0 <= x < y < b2.len() implies text_before(#[trigger] b2[x], #[trigger] b2[y]) by {
                assert(b2[x] == b[x] && b2[y] == b[y]);
            }
        }
        assert forall|t: Seq<char>| a2.contains(t) <==> b2.contains(t) by {
            if a2.contains(t) {
                let x = choose|x: int| 0 <= x < a2.len() && a2[x] == t;
                assert(text_before(a[x], la));
                assert(b.contains(t));
                let y = choose|y: int| 0 <= y < b.len() && b[y] == t;
                if y == b.len() - 1 {
                    lemma_text_before_irreflexive(t);
                }
                assert(b2[y] == t);
            }
            if b2.contains(t) {
                let y = choose|y: int| 0 <= y < b2.len() && b2[y] == t;
                assert(text_before(b[y], lb));
                assert(a.contains(t));
                let x = choose|x: int| 0 <= x < a.len() && a[x] == t;
                if x == a.len() - 1 {
                    lemma_text_before_irreflexive(t);
                }
                assert(a2[x] == t);
            }
        }
        lemma_sorted_unique(a2, b2);
        assert(a =~= a2.push(la));
        assert(b =~= b2.push(lb));
    }
}

/// The names of the listed entries of `textures` and of `videos`, each once, in increasing
/// order.
pub open spec fn sorted_listed_names<A: StorageElem2, B: StorageElem2>(textures: &Storage2<A>, videos: &Storage2<B>) -> Seq<Seq<char>> {
    choose|names: Seq<Seq<char>>| {
        &&& strictly_sorted(names)
        &&& forall|n: Seq<char>| #[trigger] names.contains(n) <==> (listed_name(textures, n) || listed_name(videos, n))
    }
}

/// The texts of a list of strings.
pub open spec fn texts(v: Seq<String>) -> Seq<Seq<char>> {
    v.map_values(|s: String| s@)
}

/// Puts `name` into the sorted list `v`, unless it is there already.
fn insert_sorted(v: &mut Vec<String>, name: &str)
    requires
        strictly_sorted(texts(old(v)@)),
    ensures
        strictly_sorted(texts(final(v)@)),
        forall|t: Seq<char>| #[trigger] texts(final(v)@).contains(t) <==> (texts(old(v)@).contains(t) || t == name@),
{
    let ghost old_texts = texts(v@);
    let mut p: usize = 0;
    while p < v.len() && is_before(v[p].as_str(), name)
        invariant
            texts(v@) == old_texts,
            p <= v@.len(),
            forall|j: int| 0 <= j < p ==> text_before(#[trigger] old_texts[j], name@),
        decreases v@.len() - p,
    {
        p = p + 1;
    }
    if p < v.len() && same_text(v[p].as_str(), name) {
        assert(old_texts[p as int] == name@);
        assert forall|t: Seq<char>| #[trigger] texts(v@).contains(t) <==> (old_texts.contains(t) || t == name@) by {
            if t == name@ {
                assert(texts(v@)[p as int] == t);
            }
        }
        return;
    }
    proof {
        if p < old_texts.len() {
            assert(!text_before(old_texts[p as int], name@));
            lemma_text_before_total(old_texts[p as int], name@);
        }
    }
    v.insert(p, String::from_str(name));
    let ghost t2 = texts(v@);
    assert(t2 =~= old_texts.insert(p as int, name@));
    assert forall|i: int, j: int| 0 <= i < j < t2.len() implies text_before(#[trigger] t2[i], #[trigger] t2[j]) by {
        if j < p {
            assert(t2[i] == old_texts[i] && t2[j] == old_texts[j]);
        } else if j == p {
            assert(t2[i] == old_texts[i]);
        } else if i < p {
            assert(t2[i] == old_texts[i] && t2[j] == old_texts[j - 1]);
            if j - 1 > p {
                assert(text_before(old_texts[p as int], old_texts[j - 1]));
                lemma_text_before_transitive(name@, old_texts[p as int], old_texts[j - 1]);
            }
            lemma_text_before_transitive(old_texts[i], name@, old_texts[j - 1]);
        } else if i == p {
            assert(t2[j] == old_texts[j - 1]);
            if j - 1 > p {
                assert(text_before(old_texts[p as int], old_texts[j - 1]));
                lemma_text_before_transitive(name@, old_texts[p as int], old_texts[j - 1]);
            }
        } else {
            assert(t2[i] == old_texts[i - 1] && t2[j] == old_texts[j - 1]);
        }
    }
    assert forall|t: Seq<char>| #[trigger] t2.contains(t) <==> (old_texts.contains(t) || t == name@) by {
        if t2.contains(t) {
            let i = choose|i: int| 0 <= i < t2.len() && t2[i] == t;
            if i < p {
                assert(old_texts[i] == t);
            } else if i > p {
                assert(old_texts[i - 1] == t);
            }
        }
        if old_texts.contains(t) {
            let i = choose|i: int| 0 <= i < old_texts.len() && old_texts[i] == t;
            if i < p {
                assert(t2[i] == t);
            } else {
                assert(t2[i + 1] == t);
            }
        }
        if t == name@ {
            assert(t2[p as int] == t);
        }
    }
}

/// Whether `n` is the name of a listed entry of `s`.
pub open spec fn listed_name<T: StorageElem2>(s: &Storage2<T>, n: Seq<char>) -> bool {
    exists|i: int| 0 <= i < s.order().len() && named_as(s.elements()[#[trigger] s.order()[i]], n)
}

/// The declarations of the texture variables named after `names`, in order.
pub open spec fn sampler_declarations(names: Seq<Seq<char>>) -> Seq<char>
    decreases names.len(),
{
    if names.len() == 0 {
        Seq::empty()
    } else {
        sampler_declarations(names.drop_last()) + "uniform sampler2D "@ + names.last() + "_tex;\n"@
    }
}

/// The declarations of the texture variables of the shader: one for each name of a listed
/// texture or video, once, in the order of the names.
pub fn texture_declarations<A: StorageElem2, B: StorageElem2>(textures: &Storage2<A>, videos: &Storage2<B>) -> (result: String)
    requires
        textures.wf(),
        videos.wf(),
    ensures
        exists|names: Seq<Seq<char>>| {
            &&& strictly_sorted(names)
            &&& forall|n: Seq<char>| #[trigger] names.contains(n) <==> (listed_name(textures, n) || listed_name(videos, n))
            &&& result@ == sampler_declarations(names)
        },
        result@ == sampler_declarations(sorted_listed_names(textures, videos)),
{
    let t = textures.visible_elements();
    let v = videos.visible_elements();
    let mut names: Vec<String> = Vec::new();
    let mut i: usize = 0;
    while i < t.len()
        invariant
            t@.len() == textures.order().len(),
            forall|k: int| 0 <= k < t@.len() ==> (#[trigger] t@[k]).0.id_of().0 == textures.order()[k]
                && named_as(textures.elements()[textures.order()[k]], t@[k].1@),
            i <= t@.len(),
            strictly_sorted(texts(names@)),
            forall|n: Seq<char>| #[trigger] texts(names@).contains(n) <==> exists|k: int| 0 <= k < i && t@[k].1@ == n,
        decreases t@.len() - i,
    {
        insert_sorted(&mut names, t[i].1);
        proof {
            assert forall|n: Seq<char>| #[trigger] texts(names@).contains(n) <==> exists|k: int| 0 <= k < i + 1 && t@[k].1@ == n by {
                if exists|k: int| 0 <= k < i + 1 && t@[k].1@ == n {
                    let k = choose|k: int| 0 <= k < i + 1 && t@[k].1@ == n;
                    if k < i {
                        assert(exists|k2: int| 0 <= k2 < i && t@[k2].1@ == n);
                    }
                }
            }
        }
        i = i + 1;
    }
    let mut j: usize = 0;
    while j < v.len()
        invariant
            t@.len() == textures.order().len(),
            forall|k: int| 0 <= k < t@.len() ==> (#[trigger] t@[k]).0.id_of().0 == textures.order()[k]
                && named_as(textures.elements()[textures.order()[k]], t@[k].1@),
            v@.len() == videos.order().len(),
            forall|k: int| 0 <= k < v@.len() ==> (#[trigger] v@[k]).0.id_of().0 == videos.order()[k]
                && named_as(videos.elements()[videos.order()[k]], v@[k].1@),
            j <= v@.len(),
            strictly_sorted(texts(names@)),
            forall|n: Seq<char>| #[trigger] texts(names@).contains(n) <==> ((exists|k: int| 0 <= k < t@.len() && t@[k].1@ == n)
                || exists|k: int| 0 <= k < j && v@[k].1@ == n),
        decreases v@.len() - j,
    {
        insert_sorted(&mut names, v[j].1);
        proof {
            assert forall|n: Seq<char>| #[trigger] texts(names@).contains(n) <==> ((exists|k: int| 0 <= k < t@.len() && t@[k].1@ == n)
                || exists|k: int| 0 <= k < j + 1 && v@[k].1@ == n) by {
                if exists|k: int| 0 <= k < j + 1 && v@[k].1@ == n {
                    let k = choose|k: int| 0 <= k < j + 1 && v@[k].1@ == n;
                    if k < j {
                        assert(exists|k2: int| 0 <= k2 < j && v@[k2].1@ == n);
                    }
                }
            }
        }
        j = j + 1;
    }
    let ghost ns = texts(names@);
    proof {
        assert forall|n: Seq<char>| #[trigger] ns.contains(n) <==> (listed_name(textures, n) || listed_name(videos, n)) by {
            if listed_name(textures, n) {
                let k = choose|k: int| 0 <= k < textures.order().len() && named_as(textures.elements()[#[trigger] textures.order()[k]], n);
                assert(named_as(textures.elements()[textures.order()[k]], t@[k].1@));
                assert(t@[k].1@ == n);
            }
            if listed_name(videos, n) {
                let k = choose|k: int| 0 <= k < videos.order().len() && named_as(videos.elements()[#[trigger] videos.order()[k]], n);
                assert(named_as(videos.elements()[videos.order()[k]], v@[k].1@));
                assert(v@[k].1@ == n);
            }
            if exists|k: int| 0 <= k < t@.len() && t@[k].1@ == n {
                let k = choose|k: int| 0 <= k < t@.len() && t@[k].1@ == n;
                assert(named_as(textures.elements()[textures.order()[k]], n));
            }
            if exists|k: int| 0 <= k < v@.len() && v@[k].1@ == n {
                let k = choose|k: int| 0 <= k < v@.len() && v@[k].1@ == n;
                assert(named_as(videos.elements()[videos.order()[k]], n));
            }
        }
    }
    let mut out = String::new();
    let mut k: usize = 0;
    while k < names.len()
        invariant
            ns == texts(names@),
            k <= names@.len(),
            out@ == sampler_declarations(ns.take(k as int)),
        decreases names@.len() - k,
    {
        let ghost before = out@;
        out.append("uniform sampler2D ");
        out.append(names[k].as_str());
        out.append("_tex;\n");
        proof {
            assert(ns.take(k + 1).drop_last() =~= ns.take(k as int));
            assert(ns.take(k + 1).last() == names@[k as int]@);
            assert(out@ =~= sampler_declarations(ns.take(k + 1)));
        }
        k = k + 1;
    }
    assert(ns.take(k as int) =~= ns);
    proof {
        let chosen = sorted_listed_names(textures, videos);
        assert(strictly_sorted(chosen) && forall|n: Seq<char>| #[trigger] chosen.contains(n) <==> (listed_name(textures, n)
            || listed_name(videos, n)));
        lemma_sorted_unique(ns, chosen);
    }
    out
}

/// The names of the two matrices of portal `o`, when it is a portal and both are chosen and
/// there.
pub open spec fn portal_names<M: StorageElem2>(m: Map<usize, StorageInner<M>>, o: Object) -> Option<(Seq<char>, Seq<char>)> {
    let kind = match o {
        Object::DebugMatrix(_) => ObjectType::Simple(None),
        Object::Flat { kind, .. } => kind,
        Object::Complex { kind, .. } => kind,
    };
    match kind {
        ObjectType::Portal(a, b) => match (matrix_name_of(m, a), matrix_name_of(m, b)) {
            (Some(x), Some(y)) => Some((x, y)),
            _ => None,
        },
        ObjectType::Simple(_) => None,
    }
}

/// The definitions of the two materials of the portal at position `pos`, numbered `c` and
/// `c + 1` after the user's materials.
pub open spec fn portal_defines(pos: nat, c: nat) -> Seq<char> {
    "#define "@ + teleport_material(pos, false) + " (USER_MATERIAL_OFFSET + "@ + decimal(c) + ")\n"@ + "#define "@
        + teleport_material(pos, true) + " (USER_MATERIAL_OFFSET + "@ + decimal(c + 1) + ")\n"@
}

/// The processing of the two materials of the portal at position `pos` between the matrices
/// named `x` and `y`: each side teleports to the other.
pub open spec fn portal_processing(pos: nat, x: Seq<char>, y: Seq<char>) -> Seq<char> {
    "} else if (i.material == "@ + teleport_material(pos, false) + ") {\n"@ + "return material_teleport(hit, r, "@ + (x
        + "_to_"@ + y + "_mat_teleport"@) + ");"@ + "} else if (i.material == "@ + teleport_material(pos, true)
        + ") {\n"@ + "return material_teleport(hit, r, "@ + (y + "_to_"@ + x + "_mat_teleport"@) + ");"@
}

/// Adding the portal materials of object `o` at position `pos` to what was made so far: the
/// processing, the definitions and the next number.
pub open spec fn portal_step<M: StorageElem2>(m: Map<usize, StorageInner<M>>, o: Object, pos: nat, acc: (Seq<char>, Seq<char>, nat)) -> (Seq<char>, Seq<char>, nat) {
    match portal_names(m, o) {
        Some((x, y)) => (acc.0 + portal_processing(pos, x, y), acc.1 + portal_defines(pos, acc.2), acc.2 + 2),
        None => acc,
    }
}

/// The material processing and definitions of the portals among `objects`, each at its
/// position, numbered from `counter` on, with the number that comes next; a portal whose
/// matrices are not both chosen and there is left out.
pub open spec fn portal_materials_text<M: StorageElem2>(m: Map<usize, StorageInner<M>>, objects: Seq<Object>, counter: nat) -> (Seq<char>, Seq<char>, nat)
    decreases objects.len(),
{
    if objects.len() == 0 {
        (Seq::empty(), Seq::empty(), counter)
    } else {
        portal_step(m, objects.last(), (objects.len() - 1) as nat, portal_materials_text(m, objects.drop_last(), counter))
    }
}

/// The number after the portal materials never exceeds two per object.
proof fn lemma_portal_counter<M: StorageElem2>(m: Map<usize, StorageInner<M>>, objects: Seq<Object>, counter: nat)
    ensures
        counter <= portal_materials_text(m, objects, counter).2 <= counter + 2 * objects.len(),
    decreases objects.len(),
{
    if objects.len() > 0 {
        lemma_portal_counter(m, objects.drop_last(), counter);
    }
}

/// Appends the definition of portal material `teleport_<pos>_<side>_M` as number `c`.
fn append_define(out: &mut String, pos: usize, second: bool, c: usize)
    ensures
        final(out)@ == old(out)@ + "#define "@ + teleport_material(pos as nat, second) + " (USER_MATERIAL_OFFSET + "@
            + decimal(c as nat) + ")\n"@,
{
    let ghost start = out@;
    out.append("#define ");
    append_teleport_material(out, pos, second);
    out.append(" (USER_MATERIAL_OFFSET + ");
    push_decimal(out, c);
    out.append(")\n");
    assert(final(out)@ =~= start + "#define "@ + teleport_material(pos as nat, second) + " (USER_MATERIAL_OFFSET + "@
        + decimal(c as nat) + ")\n"@);
}

/// Appends the processing of side one or two of the portal at position `pos`, teleporting
/// from the matrix named `from` to the one named `to`.
fn append_processing(out: &mut String, pos: usize, second: bool, from: &String, to: &String)
    ensures
        final(out)@ == old(out)@ + "} else if (i.material == "@ + teleport_material(pos as nat, second) + ") {\n"@
            + "return material_teleport(hit, r, "@ + (from@ + "_to_"@ + to@ + "_mat_teleport"@) + ");"@,
{
    let ghost start = out@;
    out.append("} else if (i.material == ");
    append_teleport_material(out, pos, second);
    out.append(") {\n");
    out.append("return material_teleport(hit, r, ");
    out.append(from.as_str());
    out.append("_to_");
    out.append(to.as_str());
    out.append("_mat_teleport");
    out.append(");");
    assert(final(out)@ =~= start + "} else if (i.material == "@ + teleport_material(pos as nat, second) + ") {\n"@
        + "return material_teleport(hit, r, "@ + (from@ + "_to_"@ + to@ + "_mat_teleport"@) + ");"@);
}

/// The names of the two matrices of portal `o`, when it is a portal and both are there.
fn portal_matrix_names<M: StorageElem2>(o: &Object, matrices: &Storage2<M>) -> (result: Option<(String, String)>)
    ensures
        match result {
            Some((x, y)) => portal_names(matrices.elements(), *o) == Some((x@, y@)),
            None => portal_names(matrices.elements(), *o) is None,
        },
{
    let kind = match o {
        Object::DebugMatrix(_) => ObjectType::Simple(None),
        Object::Flat { kind, .. } => *kind,
        Object::Complex { kind, .. } => *kind,
    };
    match kind {
        ObjectType::Portal(a, b) => {
            let x = matrix_name(a, matrices);
            let y = matrix_name(b, matrices);
            match (x, y) {
                (Some(x), Some(y)) => Some((x, y)),
                _ => None,
            }
        },
        ObjectType::Simple(_) => None,
    }
}

/// Adds the portal materials of object `o` at position `pos`, numbered from `c` on, and
/// gives the number that comes next.
fn portal_step_exec<M: StorageElem2>(o: &Object, matrices: &Storage2<M>, pos: usize, processing: &mut String, defines: &mut String, c: usize) -> (next: usize)
    requires
        c + 2 <= usize::MAX,
    ensures
        (final(processing)@, final(defines)@, next as nat) == portal_step(
            matrices.elements(),
            *o,
            pos as nat,
            (old(processing)@, old(defines)@, c as nat),
        ),
{
    match portal_matrix_names(o, matrices) {
        Some((x, y)) => {
            let ghost d0 = defines@;
            let ghost p0 = processing@;
            append_define(defines, pos, false, c);
            append_define(defines, pos, true, c + 1);
            append_processing(processing, pos, false, &x, &y);
            append_processing(processing, pos, true, &y, &x);
            assert(defines@ =~= d0 + portal_defines(pos as nat, c as nat));
            assert(processing@ =~= p0 + portal_processing(pos as nat, x@, y@));
            c + 2
        },
        None => c,
    }
}

/// The material processing and the material definitions of the portals among the listed
/// objects, each at its position in the list, numbered from `counter` on, two per portal; a
/// portal whose matrices are not both chosen and there is left out.
pub fn portal_materials<M: StorageElem2>(objects: &Storage2<Object>, matrices: &Storage2<M>, counter: usize) -> (result: (String, String))
    requires
        objects.wf(),
        counter + 2 * objects.order().len() <= usize::MAX,
    ensures
        result.0@ == portal_materials_text(matrices.elements(), listed_objects(objects), counter as nat).0,
        result.1@ == portal_materials_text(matrices.elements(), listed_objects(objects), counter as nat).1,
{
    let listed = objects.visible_elements();
    let ghost objs = listed_objects(objects);
    let ghost m = matrices.elements();
    let mut processing = String::new();
    let mut defines = String::new();
    let mut c = counter;
    let mut pos: usize = 0;
    proof {
        assert(objs.take(0) =~= Seq::<Object>::empty());
    }
    while pos < listed.len()
        invariant
            objects.wf(),
            objs == listed_objects(objects),
            m == matrices.elements(),
            listed@.len() == objects.order().len(),
            forall|i: int| 0 <= i < listed@.len() ==> (#[trigger] listed@[i]).0.id_of().0 == objects.order()[i],
            pos <= listed@.len(),
            counter + 2 * objects.order().len() <= usize::MAX,
            portal_materials_text(m, objs.take(pos as int), counter as nat) == (processing@, defines@, c as nat),
        decreases listed@.len() - pos,
    {
        proof {
            objects.lemma_listed_are_named();
            assert(objects.order().contains(objects.order()[pos as int]));
            lemma_portal_counter(m, objs.take(pos as int), counter as nat);
            assert(objs.take(pos + 1).drop_last() =~= objs.take(pos as int));
        }
        let o = objects.get_original(listed[pos].0).unwrap();
        proof {
            assert(objs.take(pos + 1).last() == *o);
        }
        c = portal_step_exec(o, matrices, pos, &mut processing, &mut defines, c);
        pos = pos + 1;
    }
    assert(objs.take(pos as int) =~= objs);
    (processing, defines)
}

/// Whether `n` is the name of one of the parts of the shader that are built here.
pub open spec fn built_part(n: Seq<char>) -> bool {
    ||| n == "uniforms"@
    ||| n == "textures"@
    ||| n == "material_processing"@
    ||| n == "materials_defines"@
    ||| n == "intersections"@
    ||| n == "intersection_material_processing"@
    ||| n == "skybox_processing"@
    ||| n == "intersection_functions"@
    ||| n == "library"@
}

/// The names of the parts built here differ from each other.
proof fn lemma_built_names_distinct()
    ensures
        "textures"@ != "material_processing"@,
        "textures"@ != "materials_defines"@,
        "textures"@ != "intersections"@,
        "textures"@ != "intersection_material_processing"@,
        "textures"@ != "skybox_processing"@,
        "material_processing"@ != "materials_defines"@,
        "material_processing"@ != "intersections"@,
        "material_processing"@ != "intersection_material_processing"@,
        "material_processing"@ != "skybox_processing"@,
        "materials_defines"@ != "intersections"@,
        "materials_defines"@ != "intersection_material_processing"@,
        "materials_defines"@ != "skybox_processing"@,
        "intersections"@ != "intersection_material_processing"@,
        "intersections"@ != "skybox_processing"@,
        "intersection_material_processing"@ != "skybox_processing"@,
        "intersection_functions"@ != "textures"@,
        "intersection_functions"@ != "material_processing"@,
        "intersection_functions"@ != "materials_defines"@,
        "intersection_functions"@ != "intersections"@,
        "intersection_functions"@ != "intersection_material_processing"@,
        "intersection_functions"@ != "skybox_processing"@,
        "library"@ != "textures"@,
        "library"@ != "material_processing"@,
        "library"@ != "materials_defines"@,
        "library"@ != "intersections"@,
        "library"@ != "intersection_material_processing"@,
        "library"@ != "skybox_processing"@,
        "library"@ != "intersection_functions"@,
        "uniforms"@ != "textures"@,
        "uniforms"@ != "material_processing"@,
        "uniforms"@ != "materials_defines"@,
        "uniforms"@ != "intersections"@,
        "uniforms"@ != "intersection_material_processing"@,
        "uniforms"@ != "skybox_processing"@,
        "uniforms"@ != "intersection_functions"@,
        "uniforms"@ != "library"@,
{
    reveal_strlit("uniforms");
    reveal_strlit("textures");
    reveal_strlit("material_processing");
    reveal_strlit("materials_defines");
    reveal_strlit("intersections");
    reveal_strlit("intersection_material_processing");
    reveal_strlit("skybox_processing");
    reveal_strlit("intersection_functions");
    reveal_strlit("library");
    assert("intersection_functions"@.len() == 22 && "intersection_functions"@[0] == 'i');
    assert("library"@.len() == 7 && "library"@[0] == 'l');
    assert("uniforms"@.len() == 8 && "uniforms"@[0] == 'u');
    assert("textures"@.len() == 8 && "textures"@[0] == 't');
    assert("material_processing"@.len() == 19 && "material_processing"@[0] == 'm');
    assert("materials_defines"@.len() == 17 && "materials_defines"@[0] == 'm');
    assert("intersections"@.len() == 13 && "intersections"@[0] == 'i');
    assert("intersection_material_processing"@.len() == 32 && "intersection_material_processing"@[0] == 'i');
    assert("skybox_processing"@.len() == 17 && "skybox_processing"@[0] == 's');
}

/// A text with no line ranges.
pub open spec fn plain_text(t: Seq<char>) -> TextModel {
    (t, Map::empty())
}

/// The uniforms named and typed in `uniforms`, as plain values; none when there are none.
pub open spec fn uniform_list(uniforms: Option<Vec<(String, UniformKind)>>) -> Seq<(Seq<char>, UniformKind)> {
    match uniforms {
        Some(u) => u@.map_values(|x: (String, UniformKind)| (x.0@, x.1)),
        None => Seq::empty(),
    }
}

/// The parts of the shader by name: those given, and those built here from the scene.
pub open spec fn shader_parts<M: StorageElem2, A: StorageElem2, B: StorageElem2, I: StorageElem2>(
    given: Seq<(String, StringStorage)>,
    uniforms: Seq<(Seq<char>, UniformKind)>,
    material_processing: StringStorage,
    materials_defines: StringStorage,
    material_count: nat,
    objects: &Storage2<Object>,
    matrices: &Storage2<M>,
    textures: &Storage2<A>,
    videos: &Storage2<B>,
    intersection_materials: &Storage2<I>,
    library: &Storage2<LibraryCode>,
    skybox: Option<Seq<char>>,
) -> Map<Seq<char>, TextModel> {
    let portals = portal_materials_text(matrices.elements(), listed_objects(objects), material_count);
    named_storages(given).insert("uniforms"@, plain_text(uniform_declarations_text(uniforms))).insert("textures"@, plain_text(sampler_declarations(sorted_listed_names(textures, videos)))).insert(
        "material_processing"@,
        (material_processing.text() + portals.0, material_processing.lines()),
    ).insert("materials_defines"@, (materials_defines.text() + portals.1, materials_defines.lines())).insert(
        "intersections"@,
        plain_text(intersections_text(matrices.elements(), listed_objects(objects)).unwrap()),
    ).insert(
        "intersection_material_processing"@,
        plain_text(intersection_material_text(intersection_materials.order().len())),
    ).insert("skybox_processing"@, plain_text(skybox_text(skybox))).insert(
        "intersection_functions"@,
        object_functions_model(listed_objects(objects)),
    ).insert("library"@, library_model(listed_library(library)))
}

/// A text, with no line ranges, as a storage.
fn text_storage(s: String) -> (result: StringStorage)
    requires
        line_count(s@) <= usize::MAX,
    ensures
        result.wf(),
        result.text() == s@,
        result.lines() == Map::<usize, (usize, usize)>::empty(),
{
    let mut result = StringStorage::new();
    assert(Seq::<char>::empty() + s@ =~= s@);
    result.add_string(s.as_str());
    result
}

/// Adds a part to the list of parts, under a name the list does not have yet.
fn push_part(parts: &mut Vec<(String, StringStorage)>, name: &str, part: StringStorage)
    requires
        names_distinct(old(parts)@),
        forall|i: int| 0 <= i < old(parts)@.len() ==> (#[trigger] old(parts)@[i]).0@ != name@,
        forall|i: int| 0 <= i < old(parts)@.len() ==> (#[trigger] old(parts)@[i]).1.lines_wf(),
        part.lines_wf(),
    ensures
        names_distinct(final(parts)@),
        forall|i: int| 0 <= i < final(parts)@.len() ==> (#[trigger] final(parts)@[i]).1.lines_wf(),
        named_storages(final(parts)@) == named_storages(old(parts)@).insert(name@, (part.text(), part.lines())),
        final(parts)@.len() == old(parts)@.len() + 1,
        forall|i: int| 0 <= i < old(parts)@.len() ==> #[trigger] final(parts)@[i] == old(parts)@[i],
        final(parts)@[old(parts)@.len() as int].0@ == name@,
{
    let entry = (name.to_owned(), part);
    proof {
        lemma_named_storages_push(parts@, entry);
    }
    parts.push(entry);
}

/// The shader code of a scene: the declarations of `uniforms`, the parts built from the
/// objects, matrices, textures, videos, intersection materials, library code and skybox, the
/// material code given with the portal materials added, and the `given` parts (the
/// intersection material functions), filled into `template`; then the lines that `flags`
/// does not want are left out and the text is trimmed, while the line ranges and the current
/// line stay those of the filled template. `None` when the uniforms could not be listed, or
/// when a listed object needs a matrix that is not chosen or missing.
#[verifier::rlimit(50)]
pub fn generate_shader_code<M: StorageElem2, A: StorageElem2, B: StorageElem2, I: StorageElem2>(
    template: &str,
    uniforms: &Option<Vec<(String, UniformKind)>>,
    given: Vec<(String, StringStorage)>,
    material_processing: StringStorage,
    materials_defines: StringStorage,
    material_count: usize,
    objects: &Storage2<Object>,
    matrices: &Storage2<M>,
    textures: &Storage2<A>,
    videos: &Storage2<B>,
    intersection_materials: &Storage2<I>,
    library: &Storage2<LibraryCode>,
    skybox: &Option<String>,
    flags: ShaderFlags,
) -> (result: Option<StringStorage>)
    requires
        objects.wf(),
        textures.wf(),
        videos.wf(),
        material_count + 2 * objects.order().len() <= usize::MAX,
        names_distinct(given@),
        forall|i: int| 0 <= i < given@.len() ==> (#[trigger] given@[i]).1.lines_wf() && !built_part(given@[i].0@),
        material_processing.wf(),
        materials_defines.wf(),
        line_count(sampler_declarations(sorted_listed_names(textures, videos))) <= usize::MAX,
        line_count(material_processing.text() + portal_materials_text(matrices.elements(), listed_objects(objects), material_count as nat).0)
            <= usize::MAX,
        line_count(materials_defines.text() + portal_materials_text(matrices.elements(), listed_objects(objects), material_count as nat).1)
            <= usize::MAX,
        intersections_text(matrices.elements(), listed_objects(objects)) is Some ==> line_count(
            intersections_text(matrices.elements(), listed_objects(objects)).unwrap(),
        ) <= usize::MAX,
        line_count(intersection_material_text(intersection_materials.order().len())) <= usize::MAX,
        library.wf(),
        2000 + objects.order().len() <= usize::MAX,
        3000 + library.order().len() <= usize::MAX,
        line_count(object_functions_model(listed_objects(objects)).0) + 1 <= usize::MAX,
        line_count(library_model(listed_library(library)).0) + 1 <= usize::MAX,
        line_count(
            skybox_text(
                match skybox {
                    Some(t) => Some(t@),
                    None => None,
                },
            ),
        ) <= usize::MAX,
        uniforms is Some ==> line_count(uniform_declarations_text(uniform_list(*uniforms))) <= usize::MAX,
        uniforms is Some && intersections_text(matrices.elements(), listed_objects(objects)) is Some ==> filled_template(
            template@,
            shader_parts(
                given@,
                uniform_list(*uniforms),
                material_processing,
                materials_defines,
                material_count as nat,
                objects,
                matrices,
                textures,
                videos,
                intersection_materials,
                library,
                match skybox {
                    Some(t) => Some(t@),
                    None => None,
                },
            ),
        ) is Some,
    ensures
        result is None <==> (uniforms is None || intersections_text(matrices.elements(), listed_objects(objects)) is None),
        result is Some ==> {
            let filled = filled_template(
                template@,
                shader_parts(
                    given@,
                    uniform_list(*uniforms),
                    material_processing,
                    materials_defines,
                    material_count as nat,
                    objects,
                    matrices,
                    textures,
                    videos,
                    intersection_materials,
                    library,
                    match skybox {
                        Some(t) => Some(t@),
                        None => None,
                    },
                ),
            ).unwrap();
            &&& result.unwrap().text() == trimmed(kept_text(text_lines(filled.0), flags))
            &&& result.unwrap().lines() == filled.1
            &&& result.unwrap().current_line_no == line_count(filled.0)
        },
{
    let ghost sky = match skybox {
        Some(t) => Some(t@),
        None => None,
    };
    let ghost parts_map = shader_parts(
        given@,
        uniform_list(*uniforms),
        material_processing,
        materials_defines,
        material_count as nat,
        objects,
        matrices,
        textures,
        videos,
        intersection_materials,
        library,
        sky,
    );
    let uniform_text = match uniforms {
        Some(u) => uniform_declarations(u),
        None => return None,
    };
    let intersections = intersections_code(objects, matrices)?;
    let textures_text = texture_declarations(textures, videos);
    let (portal_processing, portal_defines) = portal_materials(objects, matrices, material_count);
    let mut processing = material_processing;
    processing.add_string(portal_processing.as_str());
    let mut defines = materials_defines;
    defines.add_string(portal_defines.as_str());
    let material_processing_text = intersection_material_processing(intersection_materials);
    let skybox_code = skybox_processing(skybox);
    proof {
        lemma_built_names_distinct();
    }
    let mut parts = given;
    let ghost m0 = named_storages(parts@);
    push_part(&mut parts, "uniforms", text_storage(uniform_text));
    push_part(&mut parts, "textures", text_storage(textures_text));
    push_part(&mut parts, "material_processing", processing);
    push_part(&mut parts, "materials_defines", defines);
    push_part(&mut parts, "intersections", text_storage(intersections));
    push_part(&mut parts, "intersection_material_processing", text_storage(material_processing_text));
    push_part(&mut parts, "skybox_processing", text_storage(skybox_code));
    push_part(&mut parts, "intersection_functions", intersection_functions(objects));
    push_part(&mut parts, "library", library_code(library));
    assert(named_storages(parts@) == parts_map);
    let mut res = apply_template(template, parts);
    let filtered = filter_shader_lines(res.storage.as_str(), flags);
    res.storage = filtered;
    Some(res)
}

/// Appending plain text to text with line ranges.
pub open spec fn model_add(m: TextModel, t: Seq<char>) -> TextModel {
    (m.0 + t, m.1)
}

/// Appending user code recorded under `id`, as `add_identifier_string` does.
pub open spec fn model_add_code(m: TextModel, id: usize, code: Seq<char>) -> TextModel {
    (m.0 + code, m.1.insert(id, (line_count(m.0) as usize, (line_count(m.0 + code) + 1) as usize)))
}

/// Appending text never lowers the line count.
proof fn lemma_line_count_append(a: Seq<char>, b: Seq<char>)
    ensures
        line_count(a) <= line_count(a + b),
{
    lemma_count_char_concat(a, b, '\n');
}

/// The identifier of the code of the object at position `pos`.
pub open spec fn object_code_id(pos: nat) -> usize {
    (2000 + pos) as usize
}

/// The identifier of the library code at position `pos`.
pub open spec fn library_code_id(pos: nat) -> usize {
    (3000 + pos) as usize
}

impl Object {
    /// The identifier under which the code of the object at position `pos` is traced:
    /// `2000 + pos`.
    pub fn identifier(&self, pos: usize) -> (result: ErrId)
        requires
            2000 + pos <= usize::MAX,
        ensures
            result.0 == object_code_id(pos as nat),
    {
        ErrId(2000 + pos)
    }
}

impl LibraryCode {
    /// The identifier under which the library code at position `pos` is traced:
    /// `3000 + pos`.
    pub fn identifier(&self, pos: usize) -> (result: ErrId)
        requires
            3000 + pos <= usize::MAX,
        ensures
            result.0 == library_code_id(pos as nat),
    {
        ErrId(3000 + pos)
    }
}

/// The first line of the shader function of object `o` at position `pos`.
pub open spec fn object_header(o: Object, pos: nat) -> Seq<char> {
    match o {
        Object::Flat { kind, .. } => if kind is Portal {
            "int is_inside_"@ + decimal(pos) + "(vec4 pos, float x, float y, bool back, bool first) {\n"@
        } else {
            "int is_inside_"@ + decimal(pos) + "(vec4 pos, float x, float y, bool back) {\n"@
        },
        Object::Complex { kind, .. } => if kind is Portal {
            "SceneIntersection intersect_"@ + decimal(pos) + "(Ray r, bool first) {\n"@
        } else {
            "SceneIntersection intersect_"@ + decimal(pos) + "(Ray r) {\n"@
        },
        Object::DebugMatrix(_) => Seq::empty(),
    }
}

/// The user's code of object `o`: the body of its `is_inside` or `intersect` function.
pub open spec fn object_user_code(o: Object) -> Seq<char> {
    match o {
        Object::Flat { is_inside, .. } => is_inside.0.0@,
        Object::Complex { intersect, .. } => intersect.0.0@,
        Object::DebugMatrix(_) => Seq::empty(),
    }
}

/// Adding the shader function of object `o` at position `pos`: its first line, its user
/// code recorded under the object's identifier, and the closing brace; a debug view adds
/// nothing.
pub open spec fn object_function_step(m: TextModel, o: Object, pos: nat) -> TextModel {
    match o {
        Object::DebugMatrix(_) => m,
        _ => model_add(model_add_code(model_add(m, object_header(o, pos)), object_code_id(pos), object_user_code(o)), "\n}\n"@),
    }
}

/// The shader functions of `objects`, each at its position.
pub open spec fn object_functions_model(objects: Seq<Object>) -> TextModel
    decreases objects.len(),
{
    if objects.len() == 0 {
        (Seq::empty(), Map::empty())
    } else {
        object_function_step(object_functions_model(objects.drop_last()), objects.last(), (objects.len() - 1) as nat)
    }
}

proof fn lemma_object_functions_grow(objects: Seq<Object>, k: int)
    requires
        0 <= k <= objects.len(),
        2000 + objects.len() <= usize::MAX,
    ensures
        line_count(object_functions_model(objects.take(k)).0) <= line_count(object_functions_model(objects).0),
        forall|id: usize| #[trigger] object_functions_model(objects).1.contains_key(id) ==> 2000 <= id < 2000 + objects.len(),
    decreases objects.len(),
{
    if objects.len() > 0 {
        let p = objects.drop_last();
        lemma_object_functions_grow(p, if k < objects.len() { k } else { p.len() as int });
        let m = object_functions_model(p);
        let o = objects.last();
        let pos = (objects.len() - 1) as nat;
        match o {
            Object::DebugMatrix(_) => {},
            _ => {
                let t1 = m.0 + object_header(o, pos);
                let t2 = t1 + object_user_code(o);
                lemma_line_count_append(m.0, object_header(o, pos));
                lemma_line_count_append(t1, object_user_code(o));
                lemma_line_count_append(t2, "\n}\n"@);
            },
        }
        if k < objects.len() {
            assert(p.take(k) =~= objects.take(k));
        } else {
            assert(objects.take(k) =~= objects);
        }
    } else {
        assert(objects.take(k) =~= objects);
    }
}

/// The first line of the shader function of object `o` at position `pos`.
fn object_header_text(o: &Object, pos: usize) -> (result: String)
    ensures
        result@ == object_header(*o, pos as nat),
{
    let mut out = String::new();
    match o {
        Object::Flat { kind, .. } => {
            out.append("int is_inside_");
            push_decimal(&mut out, pos);
            match kind {
                ObjectType::Portal(_, _) => out.append("(vec4 pos, float x, float y, bool back, bool first) {\n"),
                ObjectType::Simple(_) => out.append("(vec4 pos, float x, float y, bool back) {\n"),
            }
        },
        Object::Complex { kind, .. } => {
            out.append("SceneIntersection intersect_");
            push_decimal(&mut out, pos);
            match kind {
                ObjectType::Portal(_, _) => out.append("(Ray r, bool first) {\n"),
                ObjectType::Simple(_) => out.append("(Ray r) {\n"),
            }
        },
        Object::DebugMatrix(_) => {},
    }
    assert(out@ =~= object_header(*o, pos as nat));
    out
}

/// The shader functions of the listed objects, each at its position: for a flat object its
/// `is_inside` function, for a complex one its `intersect` function, with the user's code
/// recorded under the object's identifier.
pub fn intersection_functions(objects: &Storage2<Object>) -> (result: StringStorage)
    requires
        objects.wf(),
        2000 + objects.order().len() <= usize::MAX,
        line_count(object_functions_model(listed_objects(objects)).0) + 1 <= usize::MAX,
    ensures
        result.wf(),
        (result.text(), result.lines()) == object_functions_model(listed_objects(objects)),
{
    let listed = objects.visible_elements();
    let ghost objs = listed_objects(objects);
    let mut result = StringStorage::new();
    let mut pos: usize = 0;
    proof {
        assert(objs.take(0) =~= Seq::<Object>::empty());
        assert(result.lines() =~= Map::<usize, (usize, usize)>::empty());
    }
    while pos < listed.len()
        invariant
            objects.wf(),
            objs == listed_objects(objects),
            listed@.len() == objects.order().len(),
            forall|i: int| 0 <= i < listed@.len() ==> (#[trigger] listed@[i]).0.id_of().0 == objects.order()[i],
            pos <= listed@.len(),
            2000 + objects.order().len() <= usize::MAX,
            line_count(object_functions_model(objs).0) + 1 <= usize::MAX,
            result.wf(),
            (result.text(), result.lines()) == object_functions_model(objs.take(pos as int)),
        decreases listed@.len() - pos,
    {
        proof {
            objects.lemma_listed_are_named();
            assert(objects.order().contains(objects.order()[pos as int]));
            assert(objs.take(pos + 1).drop_last() =~= objs.take(pos as int));
            lemma_object_functions_grow(objs, pos + 1);
            lemma_object_functions_grow(objs.take(pos as int), pos as int);
        }
        let o = objects.get_original(listed[pos].0).unwrap();
        proof {
            assert(objs.take(pos + 1).last() == *o);
        }
        let ghost m = object_functions_model(objs.take(pos as int));
        match o {
            Object::DebugMatrix(_) => {},
            Object::Flat { is_inside, .. } => {
                let header = object_header_text(o, pos);
                proof {
                    lemma_line_count_append(m.0, header@);
                    lemma_line_count_append(m.0 + header@, is_inside.0.0@);
                    lemma_line_count_append(m.0 + header@ + is_inside.0.0@, "\n}\n"@);
                    assert(objs.take(pos as int).take(pos as int) =~= objs.take(pos as int));
                }
                result.add_string(header.as_str());
                result.add_identifier_string(o.identifier(pos), is_inside.0.0.as_str());
                result.add_string("\n}\n");
            },
            Object::Complex { intersect, .. } => {
                let header = object_header_text(o, pos);
                proof {
                    lemma_line_count_append(m.0, header@);
                    lemma_line_count_append(m.0 + header@, intersect.0.0@);
                    lemma_line_count_append(m.0 + header@ + intersect.0.0@, "\n}\n"@);
                    assert(objs.take(pos as int).take(pos as int) =~= objs.take(pos as int));
                }
                result.add_string(header.as_str());
                result.add_identifier_string(o.identifier(pos), intersect.0.0.as_str());
                result.add_string("\n}\n");
            },
        }
        pos = pos + 1;
    }
    assert(objs.take(pos as int) =~= objs);
    result
}

/// The library code of `codes`, each recorded under its identifier.
pub open spec fn library_model(codes: Seq<LibraryCode>) -> TextModel
    decreases codes.len(),
{
    if codes.len() == 0 {
        (Seq::empty(), Map::empty())
    } else {
        model_add_code(library_model(codes.drop_last()), library_code_id((codes.len() - 1) as nat), codes.last().0.0@)
    }
}

proof fn lemma_library_grows(codes: Seq<LibraryCode>, k: int)
    requires
        0 <= k <= codes.len(),
        3000 + codes.len() <= usize::MAX,
    ensures
        line_count(library_model(codes.take(k)).0) <= line_count(library_model(codes).0),
        forall|id: usize| #[trigger] library_model(codes).1.contains_key(id) ==> 3000 <= id < 3000 + codes.len(),
    decreases codes.len(),
{
    if codes.len() > 0 {
        let p = codes.drop_last();
        lemma_library_grows(p, if k < codes.len() { k } else { p.len() as int });
        lemma_line_count_append(library_model(p).0, codes.last().0.0@);
        if k < codes.len() {
            assert(p.take(k) =~= codes.take(k));
        } else {
            assert(codes.take(k) =~= codes);
        }
    } else {
        assert(codes.take(k) =~= codes);
    }
}

/// The listed library code, in order.
pub open spec fn listed_library(library: &Storage2<LibraryCode>) -> Seq<LibraryCode> {
    library.order().map_values(|k: usize| inner_value(library.elements()[k]))
}

/// The listed library code, each piece at its position recorded under its identifier.
pub fn library_code(library: &Storage2<LibraryCode>) -> (result: StringStorage)
    requires
        library.wf(),
        3000 + library.order().len() <= usize::MAX,
        line_count(library_model(listed_library(library)).0) + 1 <= usize::MAX,
    ensures
        result.wf(),
        (result.text(), result.lines()) == library_model(listed_library(library)),
{
    let listed = library.visible_elements();
    let ghost codes = listed_library(library);
    let mut result = StringStorage::new();
    let mut pos: usize = 0;
    proof {
        assert(codes.take(0) =~= Seq::<LibraryCode>::empty());
        assert(result.lines() =~= Map::<usize, (usize, usize)>::empty());
    }
    while pos < listed.len()
        invariant
            library.wf(),
            codes == listed_library(library),
            listed@.len() == library.order().len(),
            forall|i: int| 0 <= i < listed@.len() ==> (#[trigger] listed@[i]).0.id_of().0 == library.order()[i],
            pos <= listed@.len(),
            3000 + library.order().len() <= usize::MAX,
            line_count(library_model(codes).0) + 1 <= usize::MAX,
            result.wf(),
            (result.text(), result.lines()) == library_model(codes.take(pos as int)),
        decreases listed@.len() - pos,
    {
        proof {
            library.lemma_listed_are_named();
            assert(library.order().contains(library.order()[pos as int]));
            assert(codes.take(pos + 1).drop_last() =~= codes.take(pos as int));
            lemma_library_grows(codes, pos + 1);
            lemma_library_grows(codes.take(pos as int), pos as int);
            assert(codes.take(pos as int).take(pos as int) =~= codes.take(pos as int));
        }
        let code = library.get_original(listed[pos].0).unwrap();
        proof {
            assert(codes.take(pos + 1).last() == *code);
        }
        result.add_identifier_string(code.identifier(pos), code.0.0.as_str());
        pos = pos + 1;
    }
    assert(codes.take(pos as int) =~= codes);
    result
}

/// The kinds of uniform the shader declares.
#[derive(Debug, Clone, Copy, PartialEq, Eq, Structural)]
pub enum UniformKind {
    Mat4,
    Float1,
    Int1,
}

/// The GLSL type of a uniform of kind `k`.
pub open spec fn glsl_type(k: UniformKind) -> Seq<char> {
    match k {
        UniformKind::Mat4 => "mat4"@,
        UniformKind::Float1 => "float"@,
        UniformKind::Int1 => "int"@,
    }
}

/// The declarations of `uniforms`, in order, leaving out those whose name starts with `_`.
pub open spec fn uniform_declarations_text(uniforms: Seq<(Seq<char>, UniformKind)>) -> Seq<char>
    decreases uniforms.len(),
{
    if uniforms.len() == 0 {
        Seq::empty()
    } else {
        let (name, kind) = uniforms.last();
        uniform_declarations_text(uniforms.drop_last()) + if name.len() > 0 && name[0] == '_' {
            Seq::empty()
        } else {
            "uniform "@ + glsl_type(kind) + " "@ + name + ";\n"@
        }
    }
}

/// The declarations of the uniforms named and typed in `uniforms`, in order, leaving out
/// those whose name starts with `_`.
pub fn uniform_declarations(uniforms: &Vec<(String, UniformKind)>) -> (result: String)
    ensures
        result@ == uniform_declarations_text(uniforms@.map_values(|u: (String, UniformKind)| (u.0@, u.1))),
{
    let ghost us = uniforms@.map_values(|u: (String, UniformKind)| (u.0@, u.1));
    let mut out = String::new();
    let mut i: usize = 0;
    while i < uniforms.len()
        invariant
            us == uniforms@.map_values(|u: (String, UniformKind)| (u.0@, u.1)),
            i <= uniforms@.len(),
            out@ == uniform_declarations_text(us.take(i as int)),
        decreases uniforms@.len() - i,
    {
        let name = &uniforms[i].0;
        let chars = chars_of(name.as_str());
        let ghost before = out@;
        proof {
            assert(us.take(i + 1).drop_last() =~= us.take(i as int));
            assert(us.take(i + 1).last() == us[i as int]);
        }
        if chars.len() > 0 && chars[0] == '_' {
            assert(out@ =~= before + Seq::<char>::empty());
        } else {
            out.append("uniform ");
            match uniforms[i].1 {
                UniformKind::Mat4 => out.append("mat4"),
                UniformKind::Float1 => out.append("float"),
                UniformKind::Int1 => out.append("int"),
            }
            out.append(" ");
            out.append(name.as_str());
            out.append(";\n");
            assert(out@ =~= before + ("uniform "@ + glsl_type(uniforms@[i as int].1) + " "@ + name@ + ";\n"@));
        }
        i = i + 1;
    }
    assert(us.take(i as int) =~= us);
    out
}

} // verus!
